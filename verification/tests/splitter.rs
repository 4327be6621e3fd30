use splitalign::splitter::{split_all, split_item, SplitItem, SplitRecord};
use splitalign::EmptyInputError;

#[derive(Debug, PartialEq, Clone)]
struct Src<'a> {
    key: &'a String,
    qty: i64,
    price: i64,
}

impl SplitItem for Src<'_> {
    fn get_key(&self) -> i64 {
        self.qty
    }
    fn get_values(&self) -> Vec<i64> {
        vec![self.price]
    }
    fn with_key_values(&self, key: i64, values: Vec<i64>) -> Self {
        Src { key: self.key, qty: key, price: values[0] }
    }
}

#[derive(Debug, PartialEq, Clone)]
struct Dest<'a> {
    key: &'a String,
    qty: i64,
}

impl SplitItem for Dest<'_> {
    fn get_key(&self) -> i64 {
        self.qty
    }
    fn get_values(&self) -> Vec<i64> {
        vec![]
    }
    fn with_key_values(&self, key: i64, _values: Vec<i64>) -> Self {
        Dest { key: self.key, qty: key }
    }
}

#[test]
fn test_split_item() {
    let item = Src { key: &"a".to_owned(), qty: 2, price: 3 };

    assert_eq!(
        (
            Src { key: &"a".to_owned(), qty: 0, price: 0 },
            Src { key: &"a".to_owned(), qty: 2, price: 3 },
        ),
        split_item(item.clone(), 0)
    );

    assert_eq!(
        (
            Src { key: &"a".to_owned(), qty: 1, price: 1 },
            Src { key: &"a".to_owned(), qty: 1, price: 2 },
        ),
        split_item(item.clone(), 1)
    );

    assert_eq!(
        (
            Src { key: &"a".to_owned(), qty: 2, price: 3 },
            Src { key: &"a".to_owned(), qty: 0, price: 0 },
        ),
        split_item(item.clone(), 2)
    );
}

#[test]
fn test_split_all_same_range() {
    let key_a = &"a".to_owned();
    let key_b = &"b".to_owned();
    let key_x = &"x".to_owned();
    let key_y = &"y".to_owned();
    let key_z = &"z".to_owned();

    let src = vec![
        Src { key: key_a, qty: 5, price: 51 },
        Src { key: key_b, qty: 5, price: 101 },
    ];

    let dest = vec![
        Dest { key: key_x, qty: 3 },
        Dest { key: key_y, qty: 4 },
        Dest { key: key_z, qty: 3 },
    ];

    let result = split_all(src, dest).unwrap();

    assert_eq!(
        vec![
            (Src { key: key_a, qty: 3, price: 30 }, Dest { key: key_x, qty: 3 }),
            (Src { key: key_a, qty: 2, price: 21 }, Dest { key: key_y, qty: 2 }),
            (Src { key: key_b, qty: 2, price: 40 }, Dest { key: key_y, qty: 2 }),
            (Src { key: key_b, qty: 3, price: 61 }, Dest { key: key_z, qty: 3 }),
        ],
        result
    );
}

#[test]
fn split_item_plain_record() {
    let item = SplitRecord { qty: 10, vals: vec![7, -7] };
    let (left, right) = split_item(item, 3);
    assert_eq!(SplitRecord { qty: 3, vals: vec![2, -2] }, left);
    assert_eq!(SplitRecord { qty: 7, vals: vec![5, -5] }, right);
}

#[test]
fn split_all_empty_source_fails() {
    let key_x = &"x".to_owned();
    let src: Vec<Src> = vec![];
    let dest = vec![Dest { key: key_x, qty: 1 }];
    assert_eq!(Err(EmptyInputError), split_all(src, dest));
}

#[test]
fn split_all_value_conservation() {
    let key_a = &"a".to_owned();
    let key_x = &"x".to_owned();
    let key_y = &"y".to_owned();
    let key_z = &"z".to_owned();

    // 10 split over 3/4/3 with a price of 7: the shares truncate to 2 and 2,
    // the last segment takes what is left, and the three sum back to 7.
    let src = vec![Src { key: key_a, qty: 10, price: 7 }];
    let dest = vec![
        Dest { key: key_x, qty: 3 },
        Dest { key: key_y, qty: 4 },
        Dest { key: key_z, qty: 3 },
    ];

    let result = split_all(src, dest).unwrap();
    let total: i64 = result.iter().map(|p| p.0.price).sum();
    assert_eq!(7, total);
    assert_eq!(
        vec![
            (Src { key: key_a, qty: 3, price: 2 }, Dest { key: key_x, qty: 3 }),
            (Src { key: key_a, qty: 4, price: 2 }, Dest { key: key_y, qty: 4 }),
            (Src { key: key_a, qty: 3, price: 3 }, Dest { key: key_z, qty: 3 }),
        ],
        result
    );
}
