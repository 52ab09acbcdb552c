use clean_cargo_projects::scan::DiscoveredProject;
use clean_cargo_projects::select::{
    ask_mode_of, auto_ask, batch_choice, batch_select, item_reply, none_ask, AskMode, BatchChoice, ItemReply,
    PerItemSelection,
};

fn path(s: &str) -> Vec<Vec<u8>> {
    s.split('/').map(|c| c.as_bytes().to_vec()).collect()
}

fn project(p: &str, size: &str) -> DiscoveredProject {
    DiscoveredProject { path: path(p), target_size: size.to_string() }
}

fn five() -> Vec<DiscoveredProject> {
    vec![project("item1", "1B"), project("item2", "2B"), project("item3", "3B"), project("item4", "4B"), project("item5", "5B")]
}

#[test]
fn batch_range_selects_inclusive_one_based_items() {
    let projects = five();
    let choice = batch_choice("2-4");
    assert_eq!(choice, BatchChoice::Range(2, 4));
    let chosen = batch_select(&projects, choice).unwrap();
    assert_eq!(chosen, vec![path("item2"), path("item3"), path("item4")]);
}

#[test]
fn batch_words_are_case_insensitive_and_trimmed() {
    assert_eq!(batch_choice("  ALL \n"), BatchChoice::All);
    assert_eq!(batch_choice("None"), BatchChoice::Nothing);
    let projects = five();
    assert_eq!(batch_select(&projects, BatchChoice::All).unwrap().len(), 5);
    assert!(batch_select(&projects, BatchChoice::Nothing).unwrap().is_empty());
}

#[test]
fn batch_range_is_clamped_to_the_list() {
    let projects = five();
    let chosen = batch_select(&projects, batch_choice(" 0-10 ")).unwrap();
    assert_eq!(chosen.len(), 5);
    let chosen = batch_select(&projects, batch_choice("4-9")).unwrap();
    assert_eq!(chosen, vec![path("item4"), path("item5")]);
    assert!(batch_select(&projects, batch_choice("5-2")).unwrap().is_empty());
}

#[test]
fn malformed_batch_answers_ask_again() {
    for input in ["a-b", "1-2-3", "3", "", "-", "1-", "x", "1 - 2"] {
        assert_eq!(batch_choice(input), BatchChoice::Invalid, "{input}");
    }
    assert!(batch_select(&five(), BatchChoice::Invalid).is_none());
}

#[test]
fn threshold_selects_sizes_at_or_above() {
    let projects = vec![project("A", "2.0MB"), project("B", "512.0KB")];
    let chosen = auto_ask(&projects, Some(1_048_576));
    assert_eq!(chosen, vec![path("A")]);
    let chosen = auto_ask(&projects, Some(524_288));
    assert_eq!(chosen.len(), 2);
}

#[test]
fn threshold_absent_selects_nothing() {
    let projects = vec![project("A", "2.0MB"), project("B", "512.0KB")];
    assert!(auto_ask(&projects, None).is_empty());
}

#[test]
fn unreadable_size_counts_as_zero() {
    let projects = vec![project("A", "?")];
    assert!(auto_ask(&projects, Some(1)).is_empty());
    assert_eq!(auto_ask(&projects, Some(0)).len(), 1);
}

#[test]
fn select_all_takes_every_project() {
    assert_eq!(none_ask(&five()).len(), 5);
    assert!(none_ask(&Vec::new()).is_empty());
}

#[test]
fn item_replies() {
    assert_eq!(item_reply("y"), ItemReply::Select);
    assert_eq!(item_reply(" Y "), ItemReply::Select);
    assert_eq!(item_reply("s"), ItemReply::Select);
    assert_eq!(item_reply("N"), ItemReply::Skip);
    assert_eq!(item_reply("q\n"), ItemReply::Quit);
    assert_eq!(item_reply("yes"), ItemReply::Invalid);
    assert_eq!(item_reply(""), ItemReply::Invalid);
}

#[test]
fn per_item_selection_reprompts_and_quits() {
    let projects = five();
    let mut sel = PerItemSelection::new(projects.len());
    assert_eq!(sel.current(), Some(0));
    sel.respond("y");
    sel.respond("maybe");
    assert_eq!(sel.current(), Some(1));
    sel.respond("n");
    sel.respond("S");
    assert_eq!(sel.current(), Some(3));
    sel.respond("q");
    assert_eq!(sel.current(), None);
    assert_eq!(sel.selection(&projects), vec![path("item1"), path("item3")]);
}

#[test]
fn per_item_selection_ends_after_the_last() {
    let projects = vec![project("only", "1B")];
    let mut sel = PerItemSelection::new(1);
    sel.respond("y");
    assert_eq!(sel.current(), None);
    assert_eq!(sel.selection(&projects), vec![path("only")]);
}

#[test]
fn mode_names() {
    assert_eq!(ask_mode_of("real-time"), Some(AskMode::RealTime));
    assert_eq!(ask_mode_of("after-scan"), Some(AskMode::AfterScan));
    assert_eq!(ask_mode_of("auto"), Some(AskMode::Auto));
    assert_eq!(ask_mode_of("none"), Some(AskMode::SelectAll));
    assert_eq!(ask_mode_of("Auto"), None);
}
