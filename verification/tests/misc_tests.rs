use interference_generator::cell::Cell;
use interference_generator::config::{Config, ConfigEditor};
use interference_generator::mode::Mode;
use interference_generator::solver::Solver;
use interference_generator::template::{prepare_pink_params, PinkPairParam, Template};
use interference_generator::toast::{Toast, ToastVariant};

#[test]
fn solver_variants_and_names() {
    let vs = Solver::variants();
    assert_eq!(vs.len(), 8);
    assert_eq!(vs[0].name(), "cbc");
    assert_eq!(Solver::FicoXpress.name(), "fico-xpress");
    assert_eq!(Solver::Raposa.name(), "raposa");
}

#[test]
fn template_variants_and_names() {
    let vs = Template::variants();
    assert_eq!(vs.len(), 9);
    assert_eq!(Template::Default.name(), "path");
    assert_eq!(Template::Eight.name(), "path_8");
    assert_eq!(Template::TurnCost(5).name(), "path_turn_cost");
    assert_eq!(Template::Pink.name(), "path_pink");
}

#[test]
fn pink_params_shape_and_names() {
    let pairs = vec![
        (Cell::new(2, 2), Cell::new(3, 3)),
        (Cell::new(10, 10), Cell::new(11, 11)),
    ];
    let params = PinkPairParam::new(pairs);
    assert_eq!(params.len(), 2);
    assert_eq!(params[0].name, "pink_pair1");
    assert_eq!(params[0].values, vec![1, 2, 2, 2, 3, 3, 4, 3]);
    assert_eq!(params[1].name, "pink_pair2");
    assert_eq!(params[1].values, vec![1, 10, 2, 10, 3, 11, 4, 11]);
}

#[test]
fn prepare_pink_params_matches_constructor() {
    let pairs = vec![(Cell::new(7, 5), Cell::new(8, 6))];
    let params = prepare_pink_params(pairs);
    assert_eq!(params.len(), 1);
    assert_eq!(params[0].name, "pink_pair1");
    assert_eq!(params[0].values, vec![1, 7, 2, 5, 3, 8, 4, 6]);
}

#[test]
fn pink_param_counters_render_in_decimal() {
    let mut pairs = Vec::new();
    for i in 0..12 {
        pairs.push((Cell::new(i + 1, 1), Cell::new(i + 2, 2)));
    }
    let params = prepare_pink_params(pairs);
    assert_eq!(params[9].name, "pink_pair10");
    assert_eq!(params[11].name, "pink_pair12");
}

#[test]
fn toast_expires_after_its_duration() {
    let t = Toast::new(String::from("saved"), ToastVariant::Success, 1000);
    assert!(!t.is_expired(1000));
    assert!(!t.is_expired(4000));
    assert!(t.is_expired(4001));
    assert_eq!(t.message, "saved");
    assert!(matches!(t.variant, ToastVariant::Success));
}

#[test]
fn config_editor_open_close() {
    let mut e = ConfigEditor::new();
    assert!(!e.is_open());
    e.open();
    assert!(e.is_open());
    e.error_msg = String::from("Invalid email");
    e.close();
    assert!(!e.is_open());
    assert_eq!(e.error_msg, "");
    assert_eq!(e.config.email, "");
}

#[test]
fn config_default_is_empty() {
    let c = Config::default();
    assert_eq!(c.email, "");
}

#[test]
fn modes_are_distinct() {
    assert!(Mode::Draw == Mode::Draw);
    assert!(Mode::Draw != Mode::Erase);
    assert!(Mode::AddPinkConstraint != Mode::RemovePinkConstraint);
    assert!(Mode::StartSelection != Mode::EndSelection);
}
