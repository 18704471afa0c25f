use cookie_refuser::BudgetLedger;
use cookie_refuser::ButtonData;
use cookie_refuser::CookieRefuser;
use cookie_refuser::TreeNode;
use cookie_refuser::handle_button_click;
use cookie_refuser::is_button_like;
use cookie_refuser::matches_wordlist;
use cookie_refuser::process_added_nodes;
use cookie_refuser::walk;

fn leaf(id: u64, tag: &str, class: &str, role: &str, text: &str) -> TreeNode {
    TreeNode {
        id,
        tag: tag.to_string(),
        class_attr: class.to_string(),
        role_attr: role.to_string(),
        aria_label: String::new(),
        own_text: text.to_string(),
        children: Vec::new(),
        shadow_children: Vec::new(),
    }
}

fn with_children(mut n: TreeNode, children: Vec<TreeNode>) -> TreeNode {
    n.children = children;
    n
}

fn with_shadow(mut n: TreeNode, shadow: Vec<TreeNode>) -> TreeNode {
    n.shadow_children = shadow;
    n
}

fn words(terms: &[&str]) -> Vec<String> {
    terms.iter().map(|t| t.to_string()).collect()
}

#[test]
fn ledger_load_stored_count() {
    let ledger = BudgetLedger::load(Some("3".to_string()), 10);
    assert_eq!(ledger.count, 3);
    assert_eq!(ledger.remaining(), 7);
    let fresh = BudgetLedger::load(None, 10);
    assert_eq!(fresh.count, 0);
    assert_eq!(fresh.remaining(), 10);
}

#[test]
fn ledger_load_unparsable_defaults_to_zero() {
    assert_eq!(BudgetLedger::load(Some("x12".to_string()), 5).count, 0);
    assert_eq!(BudgetLedger::load(Some(String::new()), 5).count, 0);
    assert_eq!(BudgetLedger::load(Some("+3".to_string()), 5).count, 0);
    assert_eq!(
        BudgetLedger::load(Some("99999999999999999999999999".to_string()), 5).count,
        0
    );
    assert_eq!(BudgetLedger::load(Some("12 ".to_string()), 5).count, 0);
}

#[test]
fn ledger_try_consume_at_max_rejects_and_keeps_count() {
    let mut ledger = BudgetLedger::load(Some("4".to_string()), 4);
    assert_eq!(ledger.count, ledger.max);
    let accepted = ledger.try_consume();
    assert!(!accepted);
    assert_eq!(ledger.count, 4);
    assert_eq!(ledger.max, 4);
}

#[test]
fn ledger_count_equals_accepted_consumes() {
    let mut ledger = BudgetLedger::load(None, 3);
    let mut accepted: usize = 0;
    for _ in 0..5 {
        if ledger.try_consume() {
            accepted += 1;
        }
        assert!(ledger.count <= ledger.max);
        assert_eq!(ledger.count, accepted);
    }
    assert_eq!(accepted, 3);
    assert_eq!(ledger.count, 3);
    assert_eq!(ledger.remaining(), 0);
}

#[test]
fn ledger_persist_round_trip() {
    let mut ledger = BudgetLedger::load(None, 100);
    assert_eq!(ledger.persist_repr(), "0");
    for _ in 0..42 {
        ledger.try_consume();
    }
    assert_eq!(ledger.persist_repr(), "42");
    let reloaded = BudgetLedger::load(Some(ledger.persist_repr()), 100);
    assert_eq!(reloaded.count, 42);
}

#[test]
fn extract_without_parent_defaults() {
    let node = leaf(7, "button", "cta", "button", "Reject all");
    let data = ButtonData::from_element(&node, None);
    assert_eq!(data.position, 0);
    assert_eq!(data.parent_class, "");
    assert_eq!(data.class, "cta");
    assert_eq!(data.role, "button");
    assert_eq!(data.text, "Reject all");
}

#[test]
fn extract_position_among_siblings() {
    let target = leaf(3, "button", "x", "", "Decline");
    let parent = with_children(
        leaf(1, "div", "banner", "", ""),
        vec![
            leaf(2, "span", "", "", "a"),
            leaf(4, "span", "", "", "b"),
            leaf(3, "button", "x", "", "Decline"),
        ],
    );
    let data = ButtonData::from_element(&target, Some(&parent));
    assert_eq!(data.position, 2);
    assert_eq!(data.parent_class, "banner");
}

#[test]
fn extract_not_found_among_siblings_defaults_to_zero() {
    let target = leaf(9, "button", "", "", "hi");
    let parent = with_children(
        leaf(1, "div", "p", "", ""),
        vec![leaf(2, "span", "", "", ""), leaf(3, "span", "", "", "")],
    );
    let data = ButtonData::from_element(&target, Some(&parent));
    assert_eq!(data.position, 0);
    assert_eq!(data.parent_class, "p");
}

#[test]
fn extract_concatenates_descendant_text() {
    let tree = with_children(
        leaf(1, "button", "", "", "Reject "),
        vec![
            leaf(2, "b", "", "", "all "),
            with_children(leaf(3, "i", "", "", ""), vec![leaf(4, "u", "", "", "cookies")]),
        ],
    );
    let data = ButtonData::from_element(&tree, None);
    assert_eq!(data.text, "Reject all cookies");
}

#[test]
fn classifier_button_like_by_tag_role_and_class() {
    assert!(is_button_like(&leaf(1, "BUTTON", "", "", "")));
    assert!(is_button_like(&leaf(2, "div", "", "button", "")));
    assert!(is_button_like(&leaf(3, "a", "cookie-button-main", "", "")));
    assert!(is_button_like(&leaf(4, "a", "btn-primary", "", "")));
    assert!(!is_button_like(&leaf(5, "div", "nav", "link", "")));
    // The class markers are matched case-sensitively, as attributes are.
    assert!(!is_button_like(&leaf(6, "div", "BTN", "", "")));
}

#[test]
fn wordlist_match_is_case_insensitive_substring() {
    let wl = words(&["reject", "decline"]);
    assert!(matches_wordlist("Reject all", &wl));
    assert!(matches_wordlist("please DECLINE now", &wl));
    assert!(!matches_wordlist("Accept all", &wl));
    assert!(!matches_wordlist("", &wl));
    assert!(!matches_wordlist("Reject all", &words(&[])));
}

#[test]
fn walk_stops_at_budget_on_first_matches_in_preorder() {
    // Five matching button leaves under one root, ids 10, 20, 30, 40, 50 in
    // document order; a budget of three clicks the first three only.
    let root = with_children(
        leaf(1, "div", "", "", ""),
        vec![
            leaf(10, "button", "", "", "Reject"),
            with_children(
                leaf(2, "div", "", "", ""),
                vec![leaf(20, "button", "", "", "Reject"), leaf(30, "button", "", "", "Reject")],
            ),
            leaf(40, "button", "", "", "Reject"),
            leaf(50, "button", "", "", "Reject"),
        ],
    );
    let mut ledger = BudgetLedger::load(None, 3);
    let out = walk(&root, &words(&["reject"]), &mut ledger);
    let targets: Vec<u64> = out.clicks.iter().map(|c| c.target).collect();
    assert_eq!(targets, vec![10, 20, 30]);
    assert_eq!(ledger.count, 3);
    assert_eq!(ledger.remaining(), 0);
}

#[test]
fn walk_crosses_shadow_boundaries_and_lists_hosts() {
    let host = with_shadow(
        leaf(5, "div", "widget", "", ""),
        vec![leaf(6, "button", "", "", "Decline everything")],
    );
    let root = with_children(leaf(1, "body", "", "", ""), vec![host]);
    let mut ledger = BudgetLedger::load(None, 10);
    let out = walk(&root, &words(&["decline"]), &mut ledger);
    let targets: Vec<u64> = out.clicks.iter().map(|c| c.target).collect();
    assert_eq!(targets, vec![6]);
    assert_eq!(out.shadow_hosts, vec![5]);
    assert_eq!(ledger.count, 1);
}

#[test]
fn walk_with_exhausted_budget_does_nothing() {
    let root = with_children(
        leaf(1, "div", "", "", ""),
        vec![leaf(2, "button", "", "", "Reject")],
    );
    let mut ledger = BudgetLedger::load(Some("2".to_string()), 2);
    let out = walk(&root, &words(&["reject"]), &mut ledger);
    assert!(out.clicks.is_empty());
    assert!(out.shadow_hosts.is_empty());
    assert_eq!(ledger.count, 2);
}

#[test]
fn watcher_acts_once_on_inserted_matching_node() {
    // Initial pass over a tree without matches, then one matching button
    // node is inserted: exactly one further action, on that node alone.
    let root = with_children(
        leaf(1, "div", "", "", ""),
        vec![leaf(2, "p", "", "", "hello")],
    );
    let wl = words(&["reject"]);
    let mut ledger = BudgetLedger::load(None, 3);
    let first = walk(&root, &wl, &mut ledger);
    assert!(first.clicks.is_empty());
    assert_eq!(ledger.count, 0);

    let added = vec![leaf(9, "button", "", "", "Reject all")];
    let out = process_added_nodes(&added, &wl, &mut ledger);
    let targets: Vec<u64> = out.clicks.iter().map(|c| c.target).collect();
    assert_eq!(targets, vec![9]);
    assert_eq!(ledger.count, 1);
}

#[test]
fn watcher_with_exhausted_budget_skips_batch() {
    let wl = words(&["reject"]);
    let mut ledger = BudgetLedger::load(Some("1".to_string()), 1);
    let added = vec![leaf(9, "button", "", "", "Reject all")];
    let out = process_added_nodes(&added, &wl, &mut ledger);
    assert!(out.clicks.is_empty());
    assert_eq!(ledger.count, 1);
}

#[test]
fn observer_reports_shadow_click_once_without_budget() {
    // A click on a button-like node inside a shadow subtree: exactly one
    // snapshot, and no ledger is involved anywhere in the path.
    let target = leaf(6, "button", "consent", "", "Decline");
    let report = handle_button_click(&target, None);
    let data = report.expect("button-like click must be reported");
    assert_eq!(data.class, "consent");
    assert_eq!(data.text, "Decline");
    assert_eq!(data.position, 0);
    assert!(handle_button_click(&leaf(7, "p", "", "", "hi"), None).is_none());
}

#[test]
fn engine_end_to_end_respects_budget_and_persists() {
    let wl = words(&["reject", "decline"]);
    let mut engine = CookieRefuser::new(wl, None, 2);
    let root = with_children(
        leaf(1, "div", "", "", ""),
        vec![
            leaf(10, "button", "", "", "Reject"),
            leaf(20, "button", "", "", "Decline"),
            leaf(30, "button", "", "", "Reject"),
        ],
    );
    let out = engine.run(&root);
    let targets: Vec<u64> = out.clicks.iter().map(|c| c.target).collect();
    assert_eq!(targets, vec![10, 20]);
    assert_eq!(engine.persist_value(), "2");
    assert_eq!(engine.ledger.remaining(), 0);
}
