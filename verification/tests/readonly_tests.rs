use html_parser::readonly::Readonly;

/// example data structure
struct Data {
    property: i32,
}

#[test]
fn primitive() {
    let readonly_data: Readonly<i32> = Readonly::new(4);
    println!("# {:?}", readonly_data);
    assert_eq!(*readonly_data.get(), 4);
}

#[test]
fn struct_value() {
    let data = Data { property: 5 };
    let readonly_data = Readonly::new(data);
    assert_eq!(readonly_data.get().property, 5);
}
