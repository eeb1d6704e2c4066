//! Tests of the dictionary: longest-prefix matching, the replace-all pass,
//! the load format, and round trips over character-variant dictionaries.

use prefix_dict::dict::Dict;

#[test]
fn test_prefix_match() {
    let mut dict = Dict::new();
    dict.load("\nA a'\nB b'\nC c'\nABC abc'\nABCD abcd'\nDDD ddd'\nBB bb'");
    assert_eq!(Some((b"A".as_ref(), b"a'".as_ref())), dict.prefix_match(b"A"));
    assert_eq!(Some((b"B".as_ref(), b"b'".as_ref())), dict.prefix_match(b"BXX"));
    assert_eq!(Some((b"ABC".as_ref(), b"abc'".as_ref())), dict.prefix_match(b"ABCX"));
    assert_eq!(Some((b"ABCD".as_ref(), b"abcd'".as_ref())), dict.prefix_match(b"ABCDEFG"));
    assert_eq!(None, dict.prefix_match(b"X"));
    assert_eq!(None, dict.prefix_match(b"DD"));
}

#[test]
fn test_dict_simple() {
    let mut dict = Dict::new();
    dict.load("\nA a\nB b\nABC xxx\n'");
    assert_eq!("a", dict.replace_all("A"));
    assert_eq!("ab", dict.replace_all("AB"));
    assert_eq!("xxx", dict.replace_all("ABC"));
    assert_eq!("abxxxa", dict.replace_all("ABABCA"));
    assert_eq!("aXbXab", dict.replace_all("AXBXAB"));
}

// A small traditional-to-simplified character-variant dictionary covering the
// passage below, one aligned pair per line.
const RAW_DICT_TS: &str = "來 来\n個 个\n夠 够\n對 对\n後 后\n愛 爱\n於 于\n時 时\n會 会\n機 机\n沒 没\n給 给\n經 经\n萬 万\n誠 诚\n說 说\n這 这\n過 过\n間 间";

// A small simplified-to-traditional dictionary for the passage below; the
// characters whose traditional form depends on context get longer entries,
// which longest-match prefers.
const RAW_DICT_ST: &str = "万 萬\n专 專\n个 個\n么 麼\n于归 于歸\n于此 於此\n于野 於野\n于飞 于飛\n会 會\n伥 倀\n发很 髮很\n发现 發現\n后悔 後悔\n后的 后的\n圣 聖\n堕 墮\n够 夠\n头 頭\n夸其 誇其\n夸夸 誇誇\n夸父 夸父\n对 對\n干什 幹什\n干你 干你\n干燥 乾燥\n归 歸\n无 無\n时 時\n暗 闇\n机 機\n来 來\n没 沒\n灾 災\n爱 愛\n现 現\n种 種\n经 經\n给 給\n群 羣\n胄。 冑。\n胄不 胄不\n胜 勝\n论 論\n诚 誠\n说 說\n请 請\n谈 談\n谏 諫\n贤 賢\n过 過\n这 這\n远 遠\n间 間\n飞 飛\n鱼 魚\n鲇 鮎\n鲶 鮎";

#[test]
fn test_dict_ts() {
    let mut dict = Dict::new();
    dict.load(RAW_DICT_TS);
    let tc = "曾經有一份真誠的愛情放在我面前，我沒有珍惜，等我失去的時候我才後悔莫及。人事間最痛苦的事莫過於此。如果上天能夠給我一個再來一次得機會，我會對那個女孩子說三個字，我愛你。如果非要在這份愛上加個期限，我希望是，一萬年。";
    let sc = "曾经有一份真诚的爱情放在我面前，我没有珍惜，等我失去的时候我才后悔莫及。人事间最痛苦的事莫过于此。如果上天能够给我一个再来一次得机会，我会对那个女孩子说三个字，我爱你。如果非要在这份爱上加个期限，我希望是，一万年。";
    assert_eq!(sc, dict.replace_all(tc));
}

#[test]
fn test_dict_st() {
    let mut dict = Dict::new();
    dict.load(RAW_DICT_ST);
    let sc = "夸夸其谈 夸父逐日\n    我干什么不干你事。\n    太后的头发很干燥。\n    燕燕于飞，差池其羽。之子于归，远送于野。\n    请成相，世之殃，愚暗愚暗堕贤良。人主无贤，如瞽无相何伥伥！请布基，慎圣人，愚而自专事不治。主忌苟胜，群臣莫谏必逢灾。\n    曾经有一份真诚的爱情放在我面前，我没有珍惜，等我失去的时候我才后悔莫及。人事间最痛苦的事莫过于此。如果上天能够给我一个再来一次得机会，我会对那个女孩子说三个字，我爱你。如果非要在这份爱上加个期限，我希望是，一万年。\n    新的理论被发现了。\n    鲶鱼和鲇鱼是一种生物。\n    金胄不是金色的甲胄。";
    let tc = "誇誇其談 夸父逐日\n    我幹什麼不干你事。\n    太后的頭髮很乾燥。\n    燕燕于飛，差池其羽。之子于歸，遠送於野。\n    請成相，世之殃，愚闇愚闇墮賢良。人主無賢，如瞽無相何倀倀！請布基，慎聖人，愚而自專事不治。主忌苟勝，羣臣莫諫必逢災。\n    曾經有一份真誠的愛情放在我面前，我沒有珍惜，等我失去的時候我才後悔莫及。人事間最痛苦的事莫過於此。如果上天能夠給我一個再來一次得機會，我會對那個女孩子說三個字，我愛你。如果非要在這份愛上加個期限，我希望是，一萬年。\n    新的理論被發現了。\n    鮎魚和鮎魚是一種生物。\n    金胄不是金色的甲冑。";
    assert_eq!(tc, dict.replace_all(sc));
}

#[test]
fn prefix_match_empty_query() {
    let mut dict = Dict::new();
    dict.load("A a");
    assert_eq!(None, dict.prefix_match(b""));
}

#[test]
fn replace_all_empty_text() {
    let mut dict = Dict::new();
    dict.load("A a");
    assert_eq!("", dict.replace_all(""));
}

#[test]
fn load_skips_lines_without_space() {
    let mut dict = Dict::new();
    dict.load("AB\nC x");
    assert_eq!(None, dict.prefix_match(b"AB"));
    assert_eq!(Some((b"C".as_ref(), b"x".as_ref())), dict.prefix_match(b"C"));
}

#[test]
fn load_overwrite_last_wins() {
    let mut dict = Dict::new();
    dict.load("K a\nK b");
    assert_eq!(Some((b"K".as_ref(), b"b".as_ref())), dict.prefix_match(b"K"));
    assert_eq!("b", dict.replace_all("K"));
}

#[test]
fn load_overwrite_across_calls() {
    let mut dict = Dict::new();
    dict.load("K a");
    dict.load("K b");
    assert_eq!("b", dict.replace_all("K"));
}

#[test]
fn load_strips_carriage_return_before_line_feed() {
    let mut dict = Dict::new();
    dict.load("A a\r\nB b\r");
    assert_eq!(Some((b"A".as_ref(), b"a".as_ref())), dict.prefix_match(b"A"));
    // the final line has no line feed, so its carriage return stays
    assert_eq!(Some((b"B".as_ref(), b"b\r".as_ref())), dict.prefix_match(b"B"));
}

#[test]
fn load_empty_key_never_matches() {
    let mut dict = Dict::new();
    dict.load(" v");
    assert_eq!(None, dict.prefix_match(b"anything"));
    assert_eq!("anything", dict.replace_all("anything"));
}

#[test]
fn load_empty_value() {
    let mut dict = Dict::new();
    dict.load("K ");
    assert_eq!("", dict.replace_all("K"));
    assert_eq!("xy", dict.replace_all("xKy"));
}

#[test]
fn replace_all_passthrough_without_matches() {
    let mut dict = Dict::new();
    dict.load("foo bar");
    assert_eq!("xyz", dict.replace_all("xyz"));
    assert_eq!("fo of o", dict.replace_all("fo of o"));
}

#[test]
fn replace_all_consumes_whole_input() {
    let mut dict = Dict::new();
    dict.load("AB z");
    assert_eq!("xzyz", dict.replace_all("xAByAB"));
}

#[test]
fn replace_all_idempotent_for_disjoint_vocabularies() {
    let mut dict = Dict::new();
    dict.load("X a\nY b");
    let once = dict.replace_all("XY");
    assert_eq!("ab", once);
    assert_eq!(once, dict.replace_all(&once));
}

#[test]
fn replace_all_copies_multibyte_characters() {
    let mut dict = Dict::new();
    dict.load("\u{65e5} Sun");
    assert_eq!("Sunx\u{6708}", dict.replace_all("\u{65e5}x\u{6708}"));
}

#[test]
fn replace_all_prefers_longest_key() {
    let mut dict = Dict::new();
    dict.load("A 1\nAA 2\nAAA 3");
    assert_eq!("3", dict.replace_all("AAA"));
    assert_eq!("32", dict.replace_all("AAAAA"));
    assert_eq!("33", dict.replace_all("AAAAAA"));
}
