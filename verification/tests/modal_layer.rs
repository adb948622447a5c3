use codon_core::modal_layer::{
    DismissDecision, FocusHandle, ModalKind, ModalLayer, ModalRender, NewModal, ViewId, WindowFocus,
};

const PANE: FocusHandle = FocusHandle(1);
const LAYER: FocusHandle = FocusHandle(2);
const MODAL: FocusHandle = FocusHandle(3);
const YES: DismissDecision = DismissDecision::Dismiss(true);

fn modal(kind: u64) -> NewModal {
    NewModal {
        kind: ModalKind(kind),
        view: ViewId(kind * 100),
        focus_handle: LAYER,
        view_focus_handle: MODAL,
    }
}

fn opened(kind: u64) -> (ModalLayer, WindowFocus) {
    let mut layer = ModalLayer::new();
    let mut window = WindowFocus { focused: Some(PANE) };
    assert!(layer.toggle_modal(ModalKind(kind), YES, false, false, &mut window));
    let next = layer.show_modal(modal(kind), &window);
    window.focused = Some(next);
    (layer, window)
}

#[test]
fn test_bare_modal_dismiss_restores_previous_focus() {
    let (mut layer, mut window) = opened(7);
    let view = layer.active_modal(ModalKind(7)).expect("bare modal is active");
    assert_eq!(
        window.focused,
        Some(MODAL),
        "opening a bare modal moves focus onto it"
    );
    assert_eq!(layer.render(true, false), ModalRender::Bare(view));
    // A bare modal tracks its own handle only, so the focus is in the
    // element of the modal and not in that of the layer.
    assert!(layer.hide_modal(YES, false, true, &mut window));
    assert!(
        window.focused.is_some(),
        "dismissing a bare modal must not leave the window without focus"
    );
    assert_eq!(
        window.focused,
        Some(PANE),
        "dismissing a bare modal restores focus to the previously focused element"
    );
}

#[test]
fn a_modal_of_the_same_kind_is_hidden() {
    let (mut layer, mut window) = opened(7);
    assert!(layer.has_active_modal());
    assert!(!layer.toggle_modal(ModalKind(7), YES, true, false, &mut window));
    assert!(!layer.has_active_modal());
    assert_eq!(window.focused, Some(PANE));
}

#[test]
fn a_modal_of_another_kind_is_replaced() {
    let (mut layer, mut window) = opened(7);
    assert!(layer.toggle_modal(ModalKind(8), YES, true, true, &mut window));
    layer.show_modal(modal(8), &window);
    assert_eq!(layer.active_modal(ModalKind(8)), Some(ViewId(800)));
    assert_eq!(layer.active_modal(ModalKind(7)), None);
    assert_eq!(layer.active_modal.unwrap().previous_focus_handle, Some(PANE));
}

#[test]
fn a_modal_that_refuses_stays() {
    let (mut layer, mut window) = opened(7);
    let no = DismissDecision::Dismiss(false);
    assert!(!layer.toggle_modal(ModalKind(8), no, true, true, &mut window));
    assert!(layer.has_active_modal());
    assert!(layer.dismiss_on_focus_lost);
    assert_eq!(window.focused, Some(MODAL));
    assert!(!layer.hide_modal(DismissDecision::Pending, true, true, &mut window));
    assert!(layer.has_active_modal());
    assert!(!layer.dismiss_on_focus_lost);
}

#[test]
fn a_modal_that_refused_goes_when_it_loses_the_focus() {
    let (mut layer, mut window) = opened(7);
    layer.focus_lost(YES, false, false, &mut window);
    assert!(layer.has_active_modal());
    layer.hide_modal(DismissDecision::Dismiss(false), true, true, &mut window);
    window.focused = Some(FocusHandle(9));
    layer.focus_lost(YES, false, false, &mut window);
    assert!(!layer.has_active_modal());
    assert_eq!(window.focused, Some(FocusHandle(9)));
}

#[test]
fn there_is_nothing_to_hide_without_a_modal() {
    let mut layer = ModalLayer::default();
    layer.dismiss_on_focus_lost = true;
    let mut window = WindowFocus { focused: None };
    assert!(!layer.hide_modal(YES, true, true, &mut window));
    assert!(!layer.dismiss_on_focus_lost);
    assert_eq!(window.focused, None);
    assert_eq!(layer.render(true, true), ModalRender::Nothing);
}

#[test]
fn a_modal_is_drawn_over_a_background() {
    let (layer, _) = opened(7);
    assert_eq!(
        layer.render(false, true),
        ModalRender::Layered { view: ViewId(700), fade_out_background: true }
    );
    assert_eq!(
        layer.render(false, false),
        ModalRender::Layered { view: ViewId(700), fade_out_background: false }
    );
}
