use presunto_e_queijo::addr::PeerAddr;
use presunto_e_queijo::ui::views::MessageView;
use presunto_e_queijo::ui::{connected_notice, disconnected_notice, display_name, user_entry};

#[test]
fn author_length_counts_characters() {
    let a = PeerAddr::V4 { ip: 1, port: 2 };
    let mut v = MessageView::new(a, "joão".to_string(), "oi".to_string());
    assert_eq!(v.author_len(), 4);
    assert_eq!(*v.addr(), a);
    assert!(v.needs_relayout(false));
    v.set_author("ana".to_string());
    assert_eq!(v.author(), "ana");
    assert_eq!(v.author_len(), 3);
    assert_eq!(v.message(), "oi");
    assert_eq!(v.text_column(), 5);
    assert_eq!(v.text_width(10), 15);
}

#[test]
fn users_are_shown_by_name_or_address() {
    let at = "10.0.0.1:2504".to_string();
    assert_eq!(display_name(&Some("ann".to_string()), &at), "ann");
    assert_eq!(display_name(&None, &at), "10.0.0.1:2504");
    assert_eq!(user_entry(&"ann".to_string(), &at), "ann@10.0.0.1:2504");
    assert_eq!(connected_notice(&"ann".to_string()), "user ann connected");
    assert_eq!(disconnected_notice(&"ann".to_string()), "user ann disconnected");
}

#[test]
fn only_messages_from_the_renamed_user_change() {
    let a = PeerAddr::V4 { ip: 1, port: 2 };
    let b = PeerAddr::V4 { ip: 1, port: 3 };
    let mut from_a = MessageView::new(a, "x".to_string(), "hi".to_string());
    let mut from_b = MessageView::new(b, "y".to_string(), "yo".to_string());
    assert!(from_a.rename_if_from(&a, "anna".to_string()));
    assert!(!from_b.rename_if_from(&a, "anna".to_string()));
    assert_eq!(from_a.author(), "anna");
    assert_eq!(from_a.author_len(), 4);
    assert_eq!(from_b.author(), "y");
}
