use arg_matcher::ArgMatcher;
use arg_matcher::ArgMatches;
use arg_matcher::ArgSpec;
use arg_matcher::SubCommand;

fn spec_with(num_vals: Option<u64>, max_vals: Option<u64>, min_vals: Option<u64>, multiple: bool) -> ArgSpec {
    ArgSpec { name: String::from("arg"), num_vals, max_vals, min_vals, multiple }
}

#[test]
fn fresh_matcher_is_empty() {
    let m = ArgMatcher::new();
    assert!(m.is_empty());
    assert!(!m.contains("anything"));
    assert!(m.get("anything").is_none());
    assert!(m.subcommand_name().is_none());
    assert_eq!(m.arg_names().len(), 0);
}

#[test]
fn first_occurrence_records_constructor_value_then_counts_up() {
    let mut m = ArgMatcher::new();
    m.inc_occurrence_of("verbose");
    assert_eq!(m.get("verbose").unwrap().occurs, 0);
    m.inc_occurrence_of("verbose");
    assert_eq!(m.get("verbose").unwrap().occurs, 1);
    m.inc_occurrence_of("verbose");
    assert_eq!(m.get("verbose").unwrap().occurs, 2);
    assert_eq!(m.get("verbose").unwrap().vals.len(), 0);
}

#[test]
fn inc_occurrences_of_walks_names_in_order() {
    let mut m = ArgMatcher::new();
    m.inc_occurrences_of(&["alpha", "beta", "alpha"]);
    assert_eq!(m.get("alpha").unwrap().occurs, 1);
    assert_eq!(m.get("beta").unwrap().occurs, 0);
    assert!(m.get("gamma").is_none());
}

#[test]
fn values_arrive_in_call_order() {
    let mut m = ArgMatcher::new();
    m.add_val_to("file", "one");
    assert_eq!(m.get("file").unwrap().vals.len(), 1);
    m.add_val_to("file", "two");
    assert_eq!(m.get("file").unwrap().vals.len(), 2);
    m.add_val_to("file", "three");
    let rec = m.get("file").unwrap();
    assert_eq!(rec.vals.len(), 3);
    assert_eq!(rec.vals[0], "one");
    assert_eq!(rec.vals[1], "two");
    assert_eq!(rec.vals[2], "three");
    assert_eq!(rec.occurs, 0);
}

#[test]
fn exact_count_without_multiple_asks_until_met() {
    let mut m = ArgMatcher::new();
    let o = spec_with(Some(2), None, None, false);
    // no record yet
    assert!(m.needs_more_vals(&o));
    m.add_val_to("arg", "v1");
    assert!(m.needs_more_vals(&o));
    m.add_val_to("arg", "v2");
    assert!(!m.needs_more_vals(&o));
    m.add_val_to("arg", "v3");
    assert!(m.needs_more_vals(&o));
}

#[test]
fn exact_count_with_multiple_asks_per_group() {
    let mut m = ArgMatcher::new();
    let o = spec_with(Some(2), None, None, true);
    // 0 values attached: no record yet
    assert!(m.needs_more_vals(&o));
    m.add_val_to("arg", "v1");
    assert!(m.needs_more_vals(&o));
    m.add_val_to("arg", "v2");
    assert!(!m.needs_more_vals(&o));
    m.add_val_to("arg", "v3");
    assert!(m.needs_more_vals(&o));
    m.add_val_to("arg", "v4");
    assert!(!m.needs_more_vals(&o));
}

#[test]
fn exact_count_with_multiple_sees_an_empty_record_as_a_complete_group() {
    let mut m = ArgMatcher::new();
    let o = spec_with(Some(2), None, None, true);
    // a record with no values sits at a group boundary: zero is a multiple
    m.inc_occurrence_of("arg");
    assert!(!m.needs_more_vals(&o));
}

#[test]
fn max_count_asks_through_the_cap() {
    let mut m = ArgMatcher::new();
    let o = spec_with(None, Some(2), None, false);
    assert!(m.needs_more_vals(&o));
    m.inc_occurrence_of("arg");
    assert!(m.needs_more_vals(&o));
    m.add_val_to("arg", "v1");
    assert!(m.needs_more_vals(&o));
    m.add_val_to("arg", "v2");
    // at the cap the policy still asks once more
    assert!(m.needs_more_vals(&o));
    m.add_val_to("arg", "v3");
    assert!(!m.needs_more_vals(&o));
}

#[test]
fn min_count_alone_always_asks() {
    let mut m = ArgMatcher::new();
    let o = spec_with(None, None, Some(1), false);
    assert!(m.needs_more_vals(&o));
    m.add_val_to("arg", "v1");
    assert!(m.needs_more_vals(&o));
    m.add_val_to("arg", "v2");
    m.add_val_to("arg", "v3");
    assert!(m.needs_more_vals(&o));
}

#[test]
fn unconstrained_multiple_always_asks() {
    let mut m = ArgMatcher::new();
    let o = spec_with(None, None, None, true);
    assert!(m.needs_more_vals(&o));
    m.add_val_to("arg", "v1");
    assert!(m.needs_more_vals(&o));
    m.add_val_to("arg", "v2");
    assert!(m.needs_more_vals(&o));
}

#[test]
fn unconstrained_single_stops_after_record() {
    let mut m = ArgMatcher::new();
    let o = spec_with(None, None, None, false);
    assert!(m.needs_more_vals(&o));
    m.add_val_to("arg", "v1");
    assert!(!m.needs_more_vals(&o));
}

#[test]
fn exact_count_of_zero_without_multiple_is_met_by_an_empty_record() {
    let mut m = ArgMatcher::new();
    let o = spec_with(Some(0), None, None, false);
    assert!(m.needs_more_vals(&o));
    m.insert("arg");
    assert!(!m.needs_more_vals(&o));
    m.add_val_to("arg", "v");
    assert!(m.needs_more_vals(&o));
}

#[test]
fn remove_all_removes_exactly_the_listed_present_names() {
    let mut m = ArgMatcher::new();
    m.add_val_to("alpha", "a1");
    m.add_val_to("beta", "b1");
    m.add_val_to("gamma", "g1");
    m.remove_all(&["beta", "delta"]);
    assert!(m.contains("alpha"));
    assert!(!m.contains("beta"));
    assert!(m.contains("gamma"));
    // records of unlisted names are untouched
    assert_eq!(m.get("alpha").unwrap().vals[0], "a1");
    assert_eq!(m.get("gamma").unwrap().vals[0], "g1");
}

#[test]
fn remove_all_of_absent_names_is_a_no_op() {
    let mut m = ArgMatcher::new();
    m.insert("alpha");
    m.remove_all(&["missing", "also-missing"]);
    assert!(m.contains("alpha"));
    assert_eq!(m.arg_names().len(), 1);
}

#[test]
fn subcommand_name_returns_the_name_just_set() {
    let mut m = ArgMatcher::new();
    assert!(m.subcommand_name().is_none());
    let sc = SubCommand { name: String::from("build"), matches: ArgMatches::default() };
    m.subcommand(sc);
    assert_eq!(m.subcommand_name(), Some("build"));
    let sc2 = SubCommand { name: String::from("test"), matches: ArgMatches::default() };
    m.subcommand(sc2);
    assert_eq!(m.subcommand_name(), Some("test"));
}

#[test]
fn insert_creates_only_when_absent() {
    let mut m = ArgMatcher::new();
    m.insert("y");
    let fresh = m.get("y").unwrap();
    assert_eq!(fresh.occurs, 0);
    assert_eq!(fresh.vals.len(), 0);
    m.add_val_to("x", "v");
    m.inc_occurrence_of("x");
    m.insert("x");
    let rec = m.get("x").unwrap();
    assert_eq!(rec.occurs, 1);
    assert_eq!(rec.vals, vec![String::from("v")]);
}

#[test]
fn remove_deletes_one_record_and_tolerates_absence() {
    let mut m = ArgMatcher::new();
    m.insert("x");
    m.insert("y");
    m.remove("x");
    assert!(!m.contains("x"));
    assert!(m.contains("y"));
    m.remove("x");
    assert!(m.contains("y"));
    assert_eq!(m.arg_names(), vec!["y"]);
}

#[test]
fn get_mut_edits_the_record_in_place() {
    let mut m = ArgMatcher::new();
    m.insert("x");
    assert!(m.get_mut("missing").is_none());
    {
        let rec = m.get_mut("x").unwrap();
        rec.occurs = 7;
        rec.vals.push(String::from("manual"));
    }
    let rec = m.get("x").unwrap();
    assert_eq!(rec.occurs, 7);
    assert_eq!(rec.vals, vec![String::from("manual")]);
}

#[test]
fn entry_returns_existing_or_inserts_fresh() {
    let mut m = ArgMatcher::new();
    {
        let rec = m.entry("x");
        assert_eq!(rec.occurs, 0);
        assert_eq!(rec.vals.len(), 0);
        rec.occurs = 3;
    }
    {
        let rec = m.entry("x");
        assert_eq!(rec.occurs, 3);
    }
    assert_eq!(m.arg_names(), vec!["x"]);
}

#[test]
fn arg_names_and_iter_follow_record_order() {
    let mut m = ArgMatcher::new();
    m.insert("one");
    m.insert("two");
    m.insert("three");
    assert_eq!(m.arg_names(), vec!["one", "two", "three"]);
    let pairs = m.iter();
    assert_eq!(pairs.len(), 3);
    assert_eq!(pairs[0].0, "one");
    assert_eq!(pairs[1].0, "two");
    assert_eq!(pairs[2].0, "three");
    // iteration is restartable: walking again sees the same pairs
    let again = m.iter();
    assert_eq!(again[0].0, "one");
}

#[test]
fn usage_overwrites_the_usage_string() {
    let mut m = ArgMatcher::new();
    assert!(m.0.usage.is_none());
    m.usage(String::from("USAGE: tool [FLAGS]"));
    assert_eq!(m.0.usage, Some(String::from("USAGE: tool [FLAGS]")));
    m.usage(String::from("USAGE: tool <INPUT>"));
    assert_eq!(m.0.usage, Some(String::from("USAGE: tool <INPUT>")));
}

#[test]
fn finished_matches_move_to_the_consumer() {
    let mut m = ArgMatcher::new();
    m.add_val_to("input", "a.txt");
    m.usage(String::from("USAGE"));
    let matches = ArgMatches::from(m);
    assert_eq!(matches.args.len(), 1);
    assert_eq!(matches.args[0].0, "input");
    assert_eq!(matches.args[0].1.vals[0], "a.txt");
    assert_eq!(matches.usage, Some(String::from("USAGE")));
}

#[test]
fn values_share_one_container_across_occurrences() {
    let mut m = ArgMatcher::new();
    m.inc_occurrence_of("multi");
    m.add_val_to("multi", "first");
    m.inc_occurrence_of("multi");
    m.add_val_to("multi", "second");
    let rec = m.get("multi").unwrap();
    assert_eq!(rec.occurs, 1);
    assert_eq!(rec.vals, vec![String::from("first"), String::from("second")]);
}
