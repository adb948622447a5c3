use codon_core::palette::{
    action_namespace, ActionAcceptsRegistry, CommandInterceptResult, CommandPaletteFilter,
    GlobalCommandPaletteInterceptor, ObjectKind,
};

#[test]
fn the_namespace_is_what_stands_before_the_first_separator() {
    assert_eq!(action_namespace("vim::shell::Run"), "vim");
    assert_eq!(action_namespace("plain"), "plain");
    assert_eq!(action_namespace("a:b"), "a:b");
    assert_eq!(action_namespace("::x"), "");
    assert_eq!(action_namespace("é::"), "é");
    assert_eq!(action_namespace(":"), ":");
}

#[test]
fn namespaces_are_hidden_and_shown() {
    let mut filter = CommandPaletteFilter::default();
    assert!(!filter.is_hidden("vim::Run", 1));
    filter.hide_namespace("vim");
    filter.hide_namespace("vim");
    assert!(filter.is_hidden("vim::Run", 1));
    assert!(!filter.is_hidden("vimish::Run", 2));
    filter.show_namespace("git");
    assert!(filter.is_hidden("vim::Run", 1));
    filter.show_namespace("vim");
    assert!(!filter.is_hidden("vim::Run", 1));
}

#[test]
fn actions_shown_by_name_are_not_hidden_with_their_namespace() {
    let mut filter = CommandPaletteFilter::default();
    filter.hide_namespace("vim");
    filter.show_action_types(&vec![1]);
    assert!(!filter.is_hidden("vim::Run", 1));
    assert!(filter.is_hidden("vim::Stop", 2));
    filter.hide_action_types(&vec![1, 3]);
    assert!(filter.is_hidden("vim::Run", 1));
    assert!(filter.is_hidden("git::Pull", 3));
    filter.show_namespace("vim");
    assert!(filter.is_hidden("vim::Run", 1));
    filter.show_action_types(&vec![3]);
    assert!(!filter.is_hidden("git::Pull", 3));
}

#[test]
fn actions_accept_what_they_are_registered_for() {
    let mut registry = ActionAcceptsRegistry::default();
    assert!(registry.is_applicable(1, Some(ObjectKind::Text)));
    registry.register(1, vec![ObjectKind::File, ObjectKind::Dir]);
    registry.register(2, vec![]);
    assert!(registry.is_applicable(1, Some(ObjectKind::Dir)));
    assert!(!registry.is_applicable(1, Some(ObjectKind::Url)));
    assert!(registry.is_applicable(1, None));
    assert!(registry.is_applicable(2, Some(ObjectKind::Commit)));
    registry.register(1, vec![ObjectKind::Url]);
    assert!(registry.is_applicable(1, Some(ObjectKind::Url)));
    assert!(!registry.is_applicable(1, Some(ObjectKind::Dir)));
}

#[test]
fn the_last_interceptor_is_asked() {
    let mut interceptor = GlobalCommandPaletteInterceptor::new();
    assert_eq!(interceptor.intercept(), None);
    interceptor.set(1);
    interceptor.set(2);
    assert_eq!(interceptor.intercept(), Some(&2));
    interceptor.clear();
    assert_eq!(interceptor.intercept(), None);
    let nothing: CommandInterceptResult<u8> = CommandInterceptResult::default();
    assert!(nothing.results.is_empty() && !nothing.exclusive);
}
