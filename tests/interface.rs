use refcount::interface::{List, Manager};

#[test]
fn interface_reads_manager_text() {
    let mut list = List { manager: Manager { text: "hello" } };
    let text = list.get_interface().text();
    assert_eq!(text, "hello");
    assert_eq!(list.manager.text, "hello");
}
