use splitalign::slicer::{slice, slice_item, SliceItem, SliceRecord};
use splitalign::EmptyInputError;

#[derive(Debug, PartialEq, Clone)]
struct Src<'a> {
    key: &'a String,
    qty: i32,
    price: i32,
}

impl SliceItem for Src<'_> {
    fn get_key(&self) -> i32 {
        self.qty
    }
    fn get_values(&self) -> Vec<i32> {
        vec![self.price]
    }
    fn with_key_values(&self, key: i32, values: Vec<i32>) -> Self {
        Src { key: self.key, qty: key, price: values[0] }
    }
}

#[derive(Debug, PartialEq, Clone)]
struct Dest<'a> {
    key: &'a String,
    qty: i32,
}

impl SliceItem for Dest<'_> {
    fn get_key(&self) -> i32 {
        self.qty
    }
    fn get_values(&self) -> Vec<i32> {
        vec![]
    }
    fn with_key_values(&self, key: i32, _values: Vec<i32>) -> Self {
        Dest { key: self.key, qty: key }
    }
}

#[test]
fn slice_item_test() {
    let item = Src { key: &"a".to_owned(), qty: 2, price: 3 };

    assert_eq!(
        (
            Src { key: &"a".to_owned(), qty: 0, price: 0 },
            Src { key: &"a".to_owned(), qty: 2, price: 3 },
        ),
        slice_item(item.clone(), 0)
    );

    assert_eq!(
        (
            Src { key: &"a".to_owned(), qty: 1, price: 1 },
            Src { key: &"a".to_owned(), qty: 1, price: 2 },
        ),
        slice_item(item.clone(), 1)
    );

    assert_eq!(
        (
            Src { key: &"a".to_owned(), qty: 2, price: 3 },
            Src { key: &"a".to_owned(), qty: 0, price: 0 },
        ),
        slice_item(item.clone(), 2)
    );
}

#[test]
fn slice_item_negative_value_truncates_toward_zero() {
    let item = Src { key: &"a".to_owned(), qty: 2, price: -3 };
    // -3 * 1 / 2 truncates to -1; the right side takes -3 - (-1) = -2,
    // so the two halves still sum back to -3 exactly.
    assert_eq!(
        (
            Src { key: &"a".to_owned(), qty: 1, price: -1 },
            Src { key: &"a".to_owned(), qty: 1, price: -2 },
        ),
        slice_item(item, 1)
    );
}

#[test]
fn slice_same_range() {
    let key_a = &"a".to_owned();
    let key_b = &"b".to_owned();
    let key_x = &"x".to_owned();
    let key_y = &"y".to_owned();
    let key_z = &"z".to_owned();

    let src = vec![
        Src { key: key_a, qty: 5, price: 51 },
        Src { key: key_b, qty: 5, price: 101 },
    ];

    let dest = vec![
        Dest { key: key_x, qty: 3 },
        Dest { key: key_y, qty: 4 },
        Dest { key: key_z, qty: 3 },
    ];

    let result = slice(src, dest).unwrap();

    assert_eq!(
        vec![
            (Src { key: key_a, qty: 3, price: 30 }, Dest { key: key_x, qty: 3 }),
            (Src { key: key_a, qty: 2, price: 21 }, Dest { key: key_y, qty: 2 }),
            (Src { key: key_b, qty: 2, price: 40 }, Dest { key: key_y, qty: 2 }),
            (Src { key: key_b, qty: 3, price: 61 }, Dest { key: key_z, qty: 3 }),
        ],
        result
    );
}

#[test]
fn slice_proportional_scenario() {
    let key_a = &"a".to_owned();
    let key_b = &"b".to_owned();
    let key_x = &"x".to_owned();
    let key_y = &"y".to_owned();
    let key_z = &"z".to_owned();

    let src = vec![
        Src { key: key_a, qty: 5, price: 50 },
        Src { key: key_b, qty: 5, price: 100 },
    ];

    let dest = vec![
        Dest { key: key_x, qty: 3 },
        Dest { key: key_y, qty: 4 },
        Dest { key: key_z, qty: 3 },
    ];

    let result = slice(src, dest).unwrap();

    assert_eq!(
        vec![
            (Src { key: key_a, qty: 3, price: 30 }, Dest { key: key_x, qty: 3 }),
            (Src { key: key_a, qty: 2, price: 20 }, Dest { key: key_y, qty: 2 }),
            (Src { key: key_b, qty: 2, price: 40 }, Dest { key: key_y, qty: 2 }),
            (Src { key: key_b, qty: 3, price: 60 }, Dest { key: key_z, qty: 3 }),
        ],
        result
    );
}

#[test]
fn slice_plain_records() {
    let src = vec![SliceRecord { qty: 5, vals: vec![50] }, SliceRecord {
        qty: 5,
        vals: vec![100],
    }];
    let dest = vec![
        SliceRecord { qty: 3, vals: vec![] },
        SliceRecord { qty: 4, vals: vec![] },
        SliceRecord { qty: 3, vals: vec![] },
    ];

    let result = slice(src, dest).unwrap();

    assert_eq!(
        vec![
            (SliceRecord { qty: 3, vals: vec![30] }, SliceRecord { qty: 3, vals: vec![] }),
            (SliceRecord { qty: 2, vals: vec![20] }, SliceRecord { qty: 2, vals: vec![] }),
            (SliceRecord { qty: 2, vals: vec![40] }, SliceRecord { qty: 2, vals: vec![] }),
            (SliceRecord { qty: 3, vals: vec![60] }, SliceRecord { qty: 3, vals: vec![] }),
        ],
        result
    );
}

#[test]
fn slice_deterministic() {
    let key_a = &"a".to_owned();
    let key_x = &"x".to_owned();
    let key_y = &"y".to_owned();

    let make_src = || vec![Src { key: key_a, qty: 7, price: 11 }];
    let make_dest = || vec![Dest { key: key_x, qty: 4 }, Dest { key: key_y, qty: 3 }];

    let first = slice(make_src(), make_dest()).unwrap();
    let second = slice(make_src(), make_dest()).unwrap();
    assert_eq!(first, second);
    for (s, d) in &first {
        assert_eq!(s.qty, d.qty);
    }
}

#[test]
fn slice_empty_source_fails() {
    let key_x = &"x".to_owned();
    let src: Vec<Src> = vec![];
    let dest = vec![Dest { key: key_x, qty: 1 }];
    assert_eq!(Err(EmptyInputError), slice(src, dest));
}

#[test]
fn slice_empty_destination_fails() {
    let key_a = &"a".to_owned();
    let src = vec![Src { key: key_a, qty: 1, price: 1 }];
    let dest: Vec<Dest> = vec![];
    assert_eq!(Err(EmptyInputError), slice(src, dest));
}

#[test]
fn slice_unbalanced_drops_remainder() {
    let key_a = &"a".to_owned();
    let key_x = &"x".to_owned();
    let key_y = &"y".to_owned();

    // Totals 5 against 13: the walk stops when the source is exhausted and
    // the destination remainder of 8 is silently dropped.
    let src = vec![Src { key: key_a, qty: 5, price: 0 }];
    let dest = vec![Dest { key: key_x, qty: 3 }, Dest { key: key_y, qty: 10 }];

    let result = slice(src, dest).unwrap();

    assert_eq!(
        vec![
            (Src { key: key_a, qty: 3, price: 0 }, Dest { key: key_x, qty: 3 }),
            (Src { key: key_a, qty: 2, price: 0 }, Dest { key: key_y, qty: 2 }),
        ],
        result
    );
}
