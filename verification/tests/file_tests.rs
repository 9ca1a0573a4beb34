use rust_mind_map::file::{
    count_leading_tabs, format_metadata, lines_can_be_read, parse_metadata, rank_from,
    stars_from, untitled_or, FileManager, NodeMetadata,
};
use rust_mind_map::node::Node;

fn node(id: u128, text: &str, children: Vec<Node>) -> Node {
    Node {
        id,
        text: text.to_string(),
        children,
        collapsed: false,
        rank_positive: 0,
        rank_negative: 0,
        stars: 0,
        symbol: None,
        hidden: false,
    }
}

fn outline(n: &Node, depth: usize, out: &mut Vec<String>) {
    out.push(format!("{}{}", "-".repeat(depth), n.text));
    for c in &n.children {
        outline(c, depth + 1, out);
    }
}

fn shape(n: &Node) -> Vec<String> {
    let mut v = Vec::new();
    outline(n, 0, &mut v);
    v
}

#[test]
fn leading_tabs_are_counted() {
    assert_eq!(count_leading_tabs("\t\tx\t"), 2);
    assert_eq!(count_leading_tabs("x"), 0);
    assert_eq!(count_leading_tabs(""), 0);
    assert_eq!(count_leading_tabs(" \tx"), 0);
}

#[test]
fn metadata_is_parsed_from_brackets() {
    let (text, meta) = parse_metadata("Requirements [rank: +2/-1, stars: 3]");
    assert_eq!(text, "Requirements");
    assert_eq!(meta, NodeMetadata { rank_positive: 2, rank_negative: -1, stars: 3, symbol: None, collapsed: false });
}

#[test]
fn metadata_stars_are_capped_at_five() {
    let (_, meta) = parse_metadata("x [stars: 9]");
    assert_eq!(meta.stars, 5);
    let (_, meta) = parse_metadata("x [stars: 300]");
    assert_eq!(meta.stars, 0);
}

#[test]
fn metadata_text_around_brackets_is_joined() {
    let (text, meta) = parse_metadata("  left [rank: 1/2]  right  ");
    assert_eq!(text, "left right");
    assert_eq!(meta.rank_positive, 1);
    assert_eq!(meta.rank_negative, 2);
    let (text, meta) = parse_metadata("[stars: 2]");
    assert_eq!(text, "");
    assert_eq!(meta.stars, 2);
}

#[test]
fn metadata_without_brackets_is_trimmed_text() {
    let (text, meta) = parse_metadata("  plain text ");
    assert_eq!(text, "plain text");
    assert_eq!(meta, NodeMetadata::default());
    let (text, meta) = parse_metadata("only [ open");
    assert_eq!(text, "only [ open");
    assert_eq!(meta.rank_positive, 0);
}

#[test]
fn metadata_rank_out_of_range_is_ignored() {
    let (_, meta) = parse_metadata("x [rank: +99999999999/-1]");
    assert_eq!(meta.rank_positive, 0);
    assert_eq!(meta.rank_negative, 0);
    let (_, meta) = parse_metadata("x [rank: -2147483648/+2147483647]");
    assert_eq!(meta.rank_positive, i32::MIN);
    assert_eq!(meta.rank_negative, i32::MAX);
}

#[test]
fn metadata_is_formatted_in_brackets() {
    let mut n = node(1, "x", vec![]);
    assert_eq!(format_metadata(&n), "");
    n.rank_positive = 2;
    n.rank_negative = -1;
    assert_eq!(format_metadata(&n), "[rank: +2/-1]");
    n.stars = 3;
    assert_eq!(format_metadata(&n), "[rank: +2/-1, stars: 3]");
    n.rank_positive = 0;
    n.rank_negative = 0;
    assert_eq!(format_metadata(&n), "[stars: 3]");
    n.rank_negative = i32::MIN;
    assert_eq!(format_metadata(&n), "[rank: +0/-2147483648, stars: 3]");
    n.collapsed = true;
    assert_eq!(format_metadata(&n), "[rank: +0/-2147483648, stars: 3, collapsed]");
    n.rank_negative = 0;
    n.stars = 0;
    assert_eq!(format_metadata(&n), "[collapsed]");
}

#[test]
fn symbols_and_collapsed_state_are_read() {
    let (text, meta) = parse_metadata("\u{2713} done [stars: 1, collapsed]");
    assert_eq!(text, "done");
    assert_eq!(meta, NodeMetadata { rank_positive: 0, rank_negative: 0, stars: 1, symbol: Some('\u{2713}'), collapsed: true });
    let (text, meta) = parse_metadata("  \u{2717}   open ");
    assert_eq!(text, "open");
    assert_eq!(meta.symbol, Some('\u{2717}'));
    assert!(!meta.collapsed);
}

#[test]
fn tree_is_serialized_with_tabs() {
    let fm = FileManager::new(None);
    let mut t = node(1, "root", vec![node(2, "a", vec![node(4, "c", vec![])]), node(3, "b", vec![])]);
    assert_eq!(fm.serialize_tree(&t, 0), "root\n\ta\n\t\tc\n\tb\n");
    t.children[0].rank_positive = 2;
    t.children[0].rank_negative = -1;
    t.children[0].stars = 3;
    assert_eq!(fm.serialize_tree(&t, 0), "root\n\ta [rank: +2/-1, stars: 3]\n\t\tc\n\tb\n");
}

#[test]
fn lone_root_and_only_child_special_cases() {
    let fm = FileManager::new(None);
    assert_eq!(fm.serialize_tree(&node(1, "root", vec![]), 0), "");
    let t = node(1, "root", vec![node(2, "only", vec![])]);
    assert_eq!(fm.serialize_tree(&t, 0), "root\n\tonly\n");
    let t = node(1, "root", vec![node(2, "only", vec![node(3, "leaf", vec![])])]);
    assert_eq!(fm.serialize_tree(&t, 0), "root\n\tonly\n\t\tleaf\n");
    let back = fm.load_from_file("m.rmm", &fm.serialize_tree(&t, 0));
    assert_eq!(shape(&back), shape(&t));
}

#[test]
fn readme_example_is_read_as_nested_tree() {
    let content = "My Project\n\tPlanning Phase\n\t\tResearch\n\t\tRequirements [rank: +2/-1, stars: 3]\n\tDevelopment Phase\n\t\tBackend\n\t\t\tDatabase Design\n\t\t\tAPI Development\n\t\tFrontend\n\t\t\tUI Design\n\t\t\tImplementation\n\tTesting Phase\n\t\tUnit Tests\n\t\tIntegration Tests\n";
    assert!(lines_can_be_read(content));
    let fm = FileManager::new(None);
    let root = fm.load_from_file("my.rmm", content);
    assert_eq!(
        shape(&root),
        vec![
            "My Project",
            "-Planning Phase",
            "--Research",
            "--Requirements",
            "-Development Phase",
            "--Backend",
            "---Database Design",
            "---API Development",
            "--Frontend",
            "---UI Design",
            "---Implementation",
            "-Testing Phase",
            "--Unit Tests",
            "--Integration Tests",
        ]
    );
    let req = &root.children[0].children[1];
    assert_eq!(req.rank_positive, 2);
    assert_eq!(req.rank_negative, -1);
    assert_eq!(req.stars, 3);
}

#[test]
fn file_parsing_keeps_grandchildren() {
    let content = "Root\n\tChild 1\n\tChild 2\n\t\tGrandchild";
    let root = FileManager::new(None).load_from_file("test_parse.rmm", content);
    assert_eq!(shape(&root), vec!["Root", "-Child 1", "-Child 2", "--Grandchild"]);
}

#[test]
fn blank_lines_and_carriage_returns_are_skipped() {
    let content = "Top\r\n\r\n\tA\r\n   \n\tB\r\n";
    let root = FileManager::new(None).load_from_file("x.rmm", content);
    assert_eq!(shape(&root), vec!["Top", "-A", "-B"]);
}

#[test]
fn last_top_level_line_is_the_root() {
    let content = "First\n\tx\nSecond\n\ty\n";
    let root = FileManager::new(None).load_from_file("x.rmm", content);
    assert_eq!(shape(&root), vec!["Second", "-y"]);
}

#[test]
fn empty_file_gives_node_named_after_file() {
    let fm = FileManager::new(None);
    let root = fm.load_from_file("maps/plans.rmm", "");
    assert_eq!(root.text, "plans");
    assert!(root.children.is_empty());
    let root = fm.load_from_file("maps/other.rmm", "\tonly indented\n");
    assert_eq!(root.text, "other");
}

#[test]
fn unreadable_lines_are_detected() {
    assert!(lines_can_be_read("ok\n\tfine [stars: 1]\n"));
    assert!(lines_can_be_read("fine\n\t\u{2713} done\n"));
    assert!(!lines_can_be_read("a ] b [ c\n"));
    assert!(lines_can_be_read("\u{2713} done [stars: 1]\n"));
}

#[test]
fn save_then_load_gives_back_the_tree() {
    let fm = FileManager::new(None);
    let t = node(1, "Plan", vec![node(2, "a", vec![node(4, "c", vec![])]), node(3, "b", vec![])]);
    let text = fm.serialize_tree(&t, 0);
    let back = fm.load_from_file("p.rmm", &text);
    assert_eq!(shape(&back), shape(&t));
}

#[test]
fn save_then_load_keeps_texts_ranks_and_stars() {
    let fm = FileManager::new(None);
    let mut a = node(2, "Planning Phase", vec![node(4, "Research", vec![])]);
    a.rank_positive = 2;
    a.rank_negative = -1;
    a.stars = 3;
    a.symbol = Some('\u{2713}');
    let mut b = node(3, "Testing", vec![]);
    b.stars = 5;
    b.collapsed = true;
    let t = node(1, "My Project", vec![a, b]);
    let text = fm.serialize_tree(&t, 0);
    assert!(lines_can_be_read(&text));
    let back = fm.load_from_file("p.rmm", &text);
    assert_eq!(shape(&back), shape(&t));
    assert_eq!(text, "My Project\n\t\u{2713} Planning Phase [rank: +2/-1, stars: 3]\n\t\tResearch\n\tTesting [stars: 5, collapsed]\n");
    let a2 = &back.children[0];
    assert_eq!((a2.rank_positive, a2.rank_negative, a2.stars, a2.symbol), (2, -1, 3, Some('\u{2713}')));
    let b2 = &back.children[1];
    assert_eq!((b2.rank_positive, b2.rank_negative, b2.stars, b2.collapsed), (0, 0, 5, true));
}

fn chars(t: &str) -> Vec<char> {
    t.chars().collect()
}

#[test]
fn ranks_are_read_from_the_first_rank() {
    assert_eq!(rank_from(&chars("rank: +2/-1")), Some((2, -1)));
    assert_eq!(rank_from(&chars("stars: 1, rank:7/+0")), Some((7, 0)));
    assert_eq!(rank_from(&chars("rank:  \t-3/4, rank: 5/6")), Some((-3, 4)));
    assert_eq!(rank_from(&chars("rank: x/1, rank: 5/6")), Some((5, 6)));
    assert_eq!(rank_from(&chars("rank: 2147483648/1")), None);
    assert_eq!(rank_from(&chars("rank: 1/")), None);
    assert_eq!(rank_from(&chars("rank 1/2")), None);
    assert_eq!(rank_from(&chars("")), None);
}

#[test]
fn stars_are_read_from_the_first_count_and_capped() {
    assert_eq!(stars_from(&chars("stars: 3")), Some(3));
    assert_eq!(stars_from(&chars("rank: 1/2, stars:9")), Some(5));
    assert_eq!(stars_from(&chars("stars: 256")), None);
    assert_eq!(stars_from(&chars("stars: +1")), None);
    assert_eq!(stars_from(&chars("stars: x")), None);
    assert_eq!(stars_from(&chars("")), None);
}

#[test]
fn empty_file_text_is_the_stem_or_untitled() {
    assert_eq!(untitled_or(Some("plan".to_string())), "plan");
    assert_eq!(untitled_or(None), "Untitled");
}

#[test]
fn a_rank_with_a_digit_beyond_ascii_gives_no_rank() {
    let (_, meta) = parse_metadata("x [rank: \u{661}/2, rank: 3/4]");
    assert_eq!(meta.rank_positive, 0);
    assert_eq!(meta.rank_negative, 0);
    let (_, meta) = parse_metadata("x [stars: \u{663}, stars: 4]");
    assert_eq!(meta.stars, 0);
    let (_, meta) = parse_metadata("x [rank: +1/\u{bd}, rank: 3/4]");
    assert_eq!(meta.rank_positive, 3);
    assert_eq!(meta.rank_negative, 4);
}

#[test]
fn loaded_nodes_have_distinct_ids() {
    let content = "Root\n\tA\n\t\tA1\n\t\tA2\n\tB\n\t\tB1\n";
    let root = FileManager::new(None).load_from_file("x.rmm", content);
    let ids = root.get_all_nodes();
    assert_eq!(ids.len(), 6);
    for i in 0..ids.len() {
        for j in 0..i {
            assert_ne!(ids[i], ids[j]);
        }
    }
}
