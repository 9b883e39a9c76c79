//! Whole-listpack exercises over both the raw engine and the wrapper.

use listpack::encoding::Value;
use listpack::raw;
use listpack::raw::Placement;
use listpack::Listpack;

#[test]
fn test_it() {
    let mut lp = raw::new();

    assert!(raw::append(&mut lp, &Value::Int(20)));
    assert!(raw::append(&mut lp, &Value::Int(21)));
    assert!(raw::append(&mut lp, &Value::Int(22)));

    let s = "hello";
    assert!(raw::append(&mut lp, &Value::String(s.as_bytes().to_vec())));

    let p = raw::first(&lp).expect("No First!");

    let p = raw::insert(&mut lp, &Value::Int(1), Placement::After, Some(p)).unwrap();
    let p = raw::insert(&mut lp, &Value::Int(2), Placement::After, Some(p)).unwrap();
    let _ = p;
    let last = raw::last(&lp).unwrap();
    let _ = raw::insert(&mut lp, &Value::Int(3), Placement::After, Some(last)).unwrap();

    for value in raw::iter(&lp) {
        match value {
            Value::Int(int) => {
                println!("Int:    {}", int);
            },
            Value::String(string) => {
                println!("String: {}", String::from_utf8_lossy(&string));
            },
        }
    }

    println!("Bytes:  {}", raw::get_total_bytes(&lp));
    println!("Length: {}", raw::get_num_elements(&lp));

    assert_eq!(
        raw::iter(&lp),
        vec![
            Value::Int(20),
            Value::Int(1),
            Value::Int(2),
            Value::Int(21),
            Value::Int(22),
            Value::String(b"hello".to_vec()),
            Value::Int(3),
        ],
    );
}

#[test]
fn append() {
    let mut lp = Listpack::new();

    for i in 0..25i64 {
        assert!(lp.append_int(i));
        assert!(lp.append_string(format!("{}", i).into_bytes()));
    }

    assert!(lp.append(Value::String(b"hello".to_vec())));

    for value in lp.iter() {
        match value {
            Value::Int(int) => {
                println!("Int:    {}", int);
            },
            Value::String(string) => {
                println!("String: {}", String::from_utf8_lossy(&string));
            },
        }
    }

    assert_eq!(lp.length(), 51);
    let tail = lp.seek(-1).expect("in range");
    assert_eq!(lp.get_str(tail), "hello");
}
