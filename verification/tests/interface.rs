use conversor_sistemas_numeracao::contracts::errors::{FacadeError, ParseError};
use conversor_sistemas_numeracao::contracts::facade::ConversionFacade;
use conversor_sistemas_numeracao::ui::app::{
    commit_custom_base, parse_custom_base, progress_counts, selected_index, step_kind, App, Base,
    ConversorFocus, Key, StepKind, Tabs, TraceState,
};
use conversor_sistemas_numeracao::ui::session::submit_conversion;

#[test]
fn base_selector_cycles() {
    let order = [Base::Auto, Base::Bin, Base::Oct, Base::Dec, Base::Hex, Base::Custom(10)];
    for i in 0..order.len() {
        assert!(order[i].next() == order[(i + 1) % order.len()]);
        assert!(order[(i + 1) % order.len()].prev() == order[i]);
    }
    assert!(Base::Custom(7).next() == Base::Auto);
    assert!(Base::Custom(7).next().prev() == Base::Custom(10));
    assert_eq!(Base::Hex.label(), "HEX");
    assert_eq!(Base::Custom(3).label(), "CUSTOM");
    assert_eq!(Base::Auto.to_hint(), None);
    assert_eq!(Base::Auto.to_u8(), 10);
    assert_eq!(Base::Custom(3).to_hint(), Some(3));
    assert_eq!(Base::Oct.to_u8(), 8);
    assert!(Base::Custom(3).is_custom());
    assert!(!Base::Dec.is_custom());
    assert_eq!(Base::all_static().len(), 5);
    assert!(Base::all_static()[4] == Base::Hex);
}

#[test]
fn tab_numbers() {
    assert_eq!(Tabs::Conversor.number(), 1);
    assert_eq!(Tabs::Max.number(), 5);
}

#[test]
fn focus_order() {
    assert!(ConversorFocus::Input.next(false, false) == ConversorFocus::SourceBase);
    assert!(ConversorFocus::SourceBase.next(false, true) == ConversorFocus::TargetBase);
    assert!(ConversorFocus::SourceBase.next(true, false) == ConversorFocus::SourceCustom);
    assert!(ConversorFocus::TargetBase.next(false, true) == ConversorFocus::TargetCustom);
    assert!(ConversorFocus::TargetCustom.next(true, true) == ConversorFocus::Input);
    assert!(ConversorFocus::SourceCustom.is_typing());
    assert!(!ConversorFocus::TargetBase.is_typing());
}

#[test]
fn custom_base_text() {
    assert_eq!(parse_custom_base("16"), Some(16));
    assert_eq!(parse_custom_base("007"), Some(7));
    assert_eq!(parse_custom_base("+5"), Some(5));
    assert_eq!(parse_custom_base("1"), None);
    assert_eq!(parse_custom_base("37"), None);
    assert_eq!(parse_custom_base("256"), None);
    assert_eq!(parse_custom_base(""), None);
    assert_eq!(parse_custom_base("+"), None);
    assert_eq!(parse_custom_base("-5"), None);
    assert_eq!(parse_custom_base("1a"), None);
    let mut b = Base::Hex;
    commit_custom_base(&mut b, "99");
    assert!(b == Base::Hex);
    commit_custom_base(&mut b, "12");
    assert!(b == Base::Custom(12));
}

#[test]
fn trace_navigation() {
    let mut t = TraceState::default();
    assert!(!t.tem_dados());
    t.avancar();
    assert_eq!(t.passo_atual, 0);
    t.passos = vec!["a".to_string(), "b".to_string(), "c".to_string()];
    assert!(t.tem_dados());
    t.avancar();
    t.avancar();
    t.avancar();
    assert_eq!(t.passo_atual, 2);
    t.recuar();
    assert_eq!(t.passo_atual, 1);
    t.recuar();
    t.recuar();
    assert_eq!(t.passo_atual, 0);
}

#[test]
fn keys_switch_tabs_unless_typing() {
    let mut app = App::new();
    assert!(app.tab == Tabs::Conversor);
    app.handle_key(Key::Char('2'));
    assert!(app.tab == Tabs::Conversor);
    assert_eq!(app.conversor.input, "2");
    app.handle_key(Key::Tab);
    assert!(app.conversor.focus == ConversorFocus::SourceBase);
    app.handle_key(Key::Char('4'));
    assert!(app.tab == Tabs::Batch);
    app.handle_key(Key::Down);
    app.handle_key(Key::Down);
    app.handle_key(Key::Up);
    assert_eq!(app.batch.selected_file, 1);
    app.handle_key(Key::Char('1'));
    assert!(app.tab == Tabs::Conversor);
}

#[test]
fn converter_keys() {
    let mut app = App::new();
    app.handle_key(Key::Char('1'));
    app.handle_key(Key::Char('0'));
    app.handle_key(Key::Backspace);
    assert_eq!(app.conversor.input, "1");
    app.handle_key(Key::Tab);
    app.handle_key(Key::Left);
    assert!(app.conversor.source_base == Base::Custom(10));
    app.handle_key(Key::Enter);
    assert!(app.conversor.focus == ConversorFocus::SourceCustom);
    app.handle_key(Key::Char('1'));
    app.handle_key(Key::Char('6'));
    app.handle_key(Key::Char('7'));
    assert_eq!(app.conversor.source_custom_input, "16");
    assert!(app.conversor.source_base == Base::Custom(16));
    app.handle_key(Key::Esc);
    assert!(app.conversor.focus == ConversorFocus::SourceBase);
    app.handle_key(Key::Tab);
    assert!(app.conversor.focus == ConversorFocus::SourceCustom);
    app.handle_key(Key::Tab);
    assert!(app.conversor.focus == ConversorFocus::TargetBase);
    app.handle_key(Key::Right);
    assert!(app.conversor.target_base == Base::Oct);
    app.handle_key(Key::Tab);
    assert!(app.conversor.focus == ConversorFocus::Input);
    app.conversor.error = Some("x".to_string());
    app.handle_key(Key::Enter);
    assert!(app.conversor.error.is_none());
}

#[test]
fn step_kinds() {
    assert!(step_kind("Result: 10") == StepKind::Result);
    assert!(step_kind("1 x 2^3 = 8") == StepKind::Multiplication);
    assert!(step_kind("12 / 2 = 6  r 0") == StepKind::Division);
    assert!(step_kind("anything") == StepKind::Other);
    assert!(step_kind("x 2") == StepKind::Other);
}

#[test]
fn progress_bar_cells() {
    assert_eq!(progress_counts(0, 1), (5, 0));
    assert_eq!(progress_counts(2, 5), (2, 3));
    assert_eq!(progress_counts(4, 5), (5, 0));
    assert_eq!(progress_counts(0, 0), (5, 0));
}

#[test]
fn selected_file_index() {
    assert_eq!(selected_index(3, 0), 0);
    assert_eq!(selected_index(3, 2), 1);
    assert_eq!(selected_index(0, 2), 0);
}

#[test]
fn submitting_a_conversion() {
    let facade = ConversionFacade::new_default();
    let mut app = App::new();
    app.conversor.input = "12".to_string();
    assert_eq!(submit_conversion(&mut app, &facade), None);
    assert_eq!(app.conversor.output, "1100");
    assert_eq!(app.trace.valor_original, "12");
    assert_eq!(app.trace.base_origem, 10);
    assert_eq!(app.trace.base_destino, 2);
    assert_eq!(app.trace.resultado, "1100");
    assert_eq!(app.trace.passos.len(), 5);
    assert_eq!(app.trace.passo_atual, 0);

    app.conversor.target_base = Base::Custom(40);
    app.conversor.input = "0xff".to_string();
    assert_eq!(submit_conversion(&mut app, &facade), None);
    assert_eq!(app.conversor.output, "(decimal) 255");

    app.conversor.input = "zz".to_string();
    assert_eq!(
        submit_conversion(&mut app, &facade),
        Some(FacadeError::Parse(ParseError::InvalidDigit { digit: 'Z', base: 10 }))
    );
    assert_eq!(app.conversor.output, "(decimal) 255");
}
