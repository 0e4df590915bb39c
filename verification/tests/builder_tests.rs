use emdock::builder::TileBuilder;

#[test]
fn new_builder_is_empty() {
    let b: TileBuilder<u8> = TileBuilder::new();
    assert_eq!(b.len(), 0);
}

#[test]
fn tiles_are_filed_by_title() {
    let mut b: TileBuilder<u8> = TileBuilder::new();
    b.add("Hello".to_string(), 1);
    b.add("Second tab".to_string(), 2);
    b.add("Other tab".to_string(), 3);
    assert_eq!(b.len(), 3);
}

#[test]
fn same_title_replaces_the_tile() {
    let mut b: TileBuilder<u8> = TileBuilder::new();
    b.add("Hello".to_string(), 1);
    b.add("Hello".to_string(), 2);
    assert_eq!(b.len(), 1);
    b.add("World".to_string(), 3);
    assert_eq!(b.len(), 2);
}

#[test]
fn file_under_replaces_what_the_id_held() {
    let mut b: TileBuilder<u8> = TileBuilder::new();
    b.file_under(5, "a".to_string(), 1);
    b.file_under(6, "b".to_string(), 2);
    assert_eq!(b.len(), 2);
    b.file_under(5, "c".to_string(), 3);
    assert_eq!(b.len(), 2);
}
