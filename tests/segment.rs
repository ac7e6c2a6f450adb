use rust_canto::annotate;
use rust_canto::token::Token;
use rust_canto::trie::Trie;
use rust_canto::utils::{is_alpha_char, is_cjk, is_connector};

fn sample() -> Trie {
    let mut t = Trie::new();
    for (ch, r) in [
        ('佢', "keoi5"),
        ('係', "hai6"),
        ('好', "hou2"),
        ('學', "hok6"),
        ('生', "saang1"),
        ('都', "dou1"),
        ('會', "wui6"),
        ('大', "daai6"),
        ('人', "jan4"),
        ('一', "jat1"),
        ('二', "ji6"),
        ('我', "ngo5"),
        ('你', "nei5"),
    ] {
        t.insert_char(ch, r, 100);
    }
    t.insert_word("學生", "hok6 saang1");
    t.insert_word("好學", "hou3 hok6");
    t.insert_word("都會", "dou1 wui6");
    t.insert_word("大學", "daai6 hok6");
    t.insert_word("都會大學", "dou1 wui6 daai6 hok6");
    t.insert_freq("學生", 71278);
    t.insert_freq("好學", 2847);
    t.insert_lettered("%", "pat6 sen1");
    t.insert_lettered("AB膠", "ei1 bi1 gaau1");
    t.insert_lettered("ge", "ge3");
    t.insert_lettered("café", "kat6 fei1");
    t
}

fn pieces(tokens: &[Token]) -> Vec<(String, Option<String>)> {
    tokens
        .iter()
        .map(|t| (t.word.clone(), t.reading.clone()))
        .collect()
}

fn p(w: &str, r: Option<&str>) -> (String, Option<String>) {
    (w.to_string(), r.map(|s| s.to_string()))
}

#[test]
fn longest_dictionary_word_is_one_token() {
    let t = sample();
    assert_eq!(
        pieces(&t.segment("都會大學")),
        vec![p("都會大學", Some("dou1 wui6 daai6 hok6"))]
    );
}

#[test]
fn frequency_breaks_equal_counts() {
    let t = sample();
    assert_eq!(
        pieces(&t.segment("好學生")),
        vec![p("好", Some("hou2")), p("學生", Some("hok6 saang1"))]
    );
    assert_eq!(
        pieces(&t.segment("佢係好學生")),
        vec![
            p("佢", Some("keoi5")),
            p("係", Some("hai6")),
            p("好", Some("hou2")),
            p("學生", Some("hok6 saang1")),
        ]
    );
}

#[test]
fn digits_and_symbols_split() {
    let t = sample();
    assert_eq!(
        pieces(&t.segment("3%人")),
        vec![p("3", None), p("%", Some("pat6 sen1")), p("人", Some("jan4"))]
    );
}

#[test]
fn alphabetic_run_beside_cjk() {
    let t = sample();
    assert_eq!(
        pieces(&t.segment("ABCD 一二")),
        vec![
            p("ABCD", None),
            p(" ", None),
            p("一", Some("jat1")),
            p("二", Some("ji6")),
        ]
    );
}

#[test]
fn lettered_entries_keep_readings() {
    let t = sample();
    assert_eq!(pieces(&t.segment("ge")), vec![p("ge", Some("ge3"))]);
    assert_eq!(pieces(&t.segment("abc")), vec![p("abc", None)]);
    assert_eq!(
        pieces(&t.segment("café好")),
        vec![p("café", Some("kat6 fei1")), p("好", Some("hou2"))]
    );
    assert_eq!(
        pieces(&t.segment("人AB膠")),
        vec![p("人", Some("jan4")), p("AB膠", Some("ei1 bi1 gaau1"))]
    );
}

#[test]
fn connectors_join_only_inside_runs() {
    let t = sample();
    assert_eq!(pieces(&t.segment("part-time")), vec![p("part-time", None)]);
    assert_eq!(
        pieces(&t.segment("-ab")),
        vec![p("-", None), p("ab", None)]
    );
    assert_eq!(
        pieces(&t.segment("ab-")),
        vec![p("ab", None), p("-", None)]
    );
}

#[test]
fn newline_is_its_own_token() {
    let t = sample();
    assert_eq!(
        pieces(&t.segment("你好\n一")),
        vec![
            p("你", Some("nei5")),
            p("好", Some("hou2")),
            p("\n", None),
            p("一", Some("jat1")),
        ]
    );
}

#[test]
fn empty_text_gives_no_tokens() {
    let t = sample();
    assert!(t.segment("").is_empty());
    assert!(annotate(&t, "").is_empty());
}

#[test]
fn tokens_cover_the_text() {
    let t = sample();
    for text in ["佢係好學生", "3%人識用AB膠", "ABCD 一二", "x-y_z'w!!", "café好 ge"] {
        let joined: String = t.segment(text).iter().map(|t| t.word.as_str()).collect();
        assert_eq!(joined, text);
    }
}

#[test]
fn fewer_tokens_win() {
    // "好學生": two tokens either way; "都會大學" beats "都會" + "大學"
    let t = sample();
    assert_eq!(t.segment("都會大學").len(), 1);
    assert_eq!(t.segment("好學生").len(), 2);
}

#[test]
fn weighted_readings_are_ordered() {
    let mut t = Trie::new();
    t.insert_char('行', "hang4", 20);
    t.insert_char('行', "hong4", 70);
    t.insert_char('行', "haang4", 70);
    t.insert_char('行', "hong4", 90);
    assert_eq!(pieces(&t.segment("行")), vec![p("行", Some("hong4"))]);
    let mut u = Trie::new();
    u.insert_char('行', "hang4", 20);
    u.insert_char('行', "haang4", 100);
    assert_eq!(pieces(&u.segment("行")), vec![p("行", Some("haang4"))]);
}

#[test]
fn short_words_and_unknown_frequencies_are_ignored() {
    let mut t = Trie::new();
    t.insert_word("好", "hou3");
    t.insert_lettered("", "x");
    t.insert_freq("未有", 5);
    assert_eq!(pieces(&t.segment("好")), vec![p("好", None)]);
    t.insert_word("好", "hou2");
    t.insert_lettered("好", "hou2");
    assert_eq!(pieces(&t.segment("好")), vec![p("好", Some("hou2"))]);
}

#[test]
fn first_reading_of_a_word_is_primary() {
    let mut t = Trie::new();
    t.insert_word("學生", "hok6 saang1");
    t.insert_word("學生", "hok6 sang1");
    assert_eq!(
        pieces(&t.segment("學生")),
        vec![p("學生", Some("hok6 saang1"))]
    );
}

#[test]
fn annotation_adds_yale() {
    let t = sample();
    let a = annotate(&t, "我ge 3");
    assert_eq!(a.len(), 4);
    assert_eq!(a[0].word, "我");
    assert_eq!(a[0].yale, Some(vec!["ngóh".to_string()]));
    assert_eq!(a[1].yale, Some(vec!["ge".to_string()]));
    assert_eq!(a[2].yale, None);
    assert_eq!(a[3].reading, None);
    assert_eq!(a[3].yale, None);
    let b = annotate(&t, "學生");
    assert_eq!(b[0].yale, Some(vec!["hohk".to_string(), "sāang".to_string()]));
}

#[test]
fn annotation_is_repeatable() {
    let t = sample();
    let a = annotate(&t, "佢係好學生 AB膠");
    let b = annotate(&t, "佢係好學生 AB膠");
    assert_eq!(format!("{:?}", a), format!("{:?}", b));
}

#[test]
fn classifier_blocks() {
    assert!(is_cjk('一'));
    assert!(is_cjk('\u{9FFF}'));
    assert!(is_cjk('\u{3400}'));
    assert!(is_cjk('\u{20BA9}'));
    assert!(is_cjk('\u{2CEAF}'));
    assert!(is_cjk('\u{F900}'));
    assert!(!is_cjk('\u{4DC0}'));
    assert!(!is_cjk('a'));
    assert!(is_alpha_char('é'));
    assert!(is_alpha_char('7'));
    assert!(!is_alpha_char('學'));
    assert!(!is_alpha_char('%'));
    assert!(is_connector('-') && is_connector('_') && is_connector('\''));
    assert!(!is_connector('%'));
}
