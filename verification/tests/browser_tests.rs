use ffs::browser::{BrowserInput, BrowserState, BrowserStep};
use ffs::rank::ScoredCandidate;

fn three_results() -> Vec<ScoredCandidate> {
    vec![
        ScoredCandidate {
            score: 0,
            name: "main".to_string(),
            full_path: "./main.rs".to_string(),
        },
        ScoredCandidate {
            score: 1,
            name: "mine".to_string(),
            full_path: "./mine.rs".to_string(),
        },
        ScoredCandidate {
            score: 1,
            name: "moan".to_string(),
            full_path: "./moan.rs".to_string(),
        },
    ]
}

#[test]
fn session_starts_at_the_first_row() {
    let st = BrowserState::new(three_results());
    assert_eq!(st.selected_index, 0);
}

#[test]
fn one_down_moves_to_index_one() {
    let mut st = BrowserState::new(three_results());
    let step = st.handle_input(BrowserInput::Down);
    assert_eq!(step, BrowserStep::Continue);
    assert_eq!(st.selected_index, 1);
}

#[test]
fn three_downs_clamp_at_the_last_row() {
    let mut st = BrowserState::new(three_results());
    for _ in 0..3 {
        let step = st.handle_input(BrowserInput::Down);
        assert_eq!(step, BrowserStep::Continue);
    }
    assert_eq!(st.selected_index, 2);
}

#[test]
fn up_at_the_first_row_stays_there() {
    let mut st = BrowserState::new(three_results());
    let step = st.handle_input(BrowserInput::Up);
    assert_eq!(step, BrowserStep::Continue);
    assert_eq!(st.selected_index, 0);
}

#[test]
fn confirm_opens_the_selected_row() {
    let mut st = BrowserState::new(three_results());
    st.handle_input(BrowserInput::Down);
    let step = st.handle_input(BrowserInput::Confirm);
    assert_eq!(step, BrowserStep::Open(1));
    assert_eq!(st.results[1].full_path, "./mine.rs");
}

#[test]
fn confirm_on_empty_results_is_a_no_op() {
    let mut st = BrowserState::new(Vec::new());
    let step = st.handle_input(BrowserInput::Confirm);
    assert_eq!(step, BrowserStep::Continue);
    assert_eq!(st.selected_index, 0);
}

#[test]
fn quit_always_ends_the_session_with_nothing_chosen() {
    let mut st = BrowserState::new(three_results());
    st.handle_input(BrowserInput::Down);
    st.handle_input(BrowserInput::Down);
    assert_eq!(st.handle_input(BrowserInput::Quit), BrowserStep::Cancelled);

    let mut empty = BrowserState::new(Vec::new());
    assert_eq!(empty.handle_input(BrowserInput::Quit), BrowserStep::Cancelled);
}

#[test]
fn other_keys_change_nothing() {
    let mut st = BrowserState::new(three_results());
    st.handle_input(BrowserInput::Down);
    let step = st.handle_input(BrowserInput::Other);
    assert_eq!(step, BrowserStep::Continue);
    assert_eq!(st.selected_index, 1);
}

#[test]
fn movement_never_changes_the_results() {
    let mut st = BrowserState::new(three_results());
    st.handle_input(BrowserInput::Down);
    st.handle_input(BrowserInput::Up);
    st.handle_input(BrowserInput::Other);
    assert_eq!(st.results.len(), 3);
    assert_eq!(st.results[0].name, "main");
    assert_eq!(st.results[2].name, "moan");
}
