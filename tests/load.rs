use rust_canto::load::{
    build_trie, load_char_line, load_freq_line, load_lettered_line, load_records, load_word_line,
    RecordKind,
};
use rust_canto::token::Token;
use rust_canto::trie::Trie;

fn readings(t: &Trie, text: &str) -> Vec<(String, Option<String>)> {
    t.segment(text)
        .iter()
        .map(|x: &Token| (x.word.clone(), x.reading.clone()))
        .collect()
}

fn one(w: &str, r: Option<&str>) -> Vec<(String, Option<String>)> {
    vec![(w.to_string(), r.map(|s| s.to_string()))]
}

#[test]
fn char_weights_order_readings() {
    let mut t = Trie::new();
    load_char_line(&mut t, "行\thang4\t5%");
    load_char_line(&mut t, "行\thong4\t 60% ");
    load_char_line(&mut t, "行\thaang4\t30%");
    assert_eq!(readings(&t, "行"), one("行", Some("hong4")));
}

#[test]
fn missing_weight_is_highest() {
    let mut t = Trie::new();
    load_char_line(&mut t, "行\thong4\t99%");
    load_char_line(&mut t, "行\thang4");
    assert_eq!(readings(&t, "行"), one("行", Some("hang4")));
}

#[test]
fn unreadable_weight_is_lowest() {
    let mut t = Trie::new();
    load_char_line(&mut t, "行\thang4\tmany");
    load_char_line(&mut t, "行\thong4\t1%");
    assert_eq!(readings(&t, "行"), one("行", Some("hong4")));
}

#[test]
fn malformed_lines_are_skipped() {
    let mut t = Trie::new();
    load_char_line(&mut t, "行");
    load_char_line(&mut t, "\thang4");
    load_word_line(&mut t, "學生 hok6 saang1");
    load_lettered_line(&mut t, "ge");
    load_freq_line(&mut t, "行\tlots");
    assert_eq!(readings(&t, "行"), one("行", None));
    assert_eq!(readings(&t, "ge"), one("ge", None));
}

#[test]
fn word_and_lettered_lines() {
    let mut t = Trie::new();
    load_word_line(&mut t, "學生\thok6 saang1");
    load_lettered_line(&mut t, "%\tpat6 sen1");
    assert_eq!(readings(&t, "學生"), one("學生", Some("hok6 saang1")));
    assert_eq!(readings(&t, "%"), one("%", Some("pat6 sen1")));
}

#[test]
fn frequency_lines_decide_ties() {
    let mut t = Trie::new();
    load_records(&mut t, "好\thou2\n學\thok6\n生\tsaang1\n", RecordKind::Chars);
    load_records(&mut t, "好學\thou3 hok6\r\n學生\thok6 saang1", RecordKind::Words);
    load_records(&mut t, "好學\t2847\n學生\t+71278\n", RecordKind::Freqs);
    assert_eq!(
        readings(&t, "好學生"),
        vec![
            ("好".to_string(), Some("hou2".to_string())),
            ("學生".to_string(), Some("hok6 saang1".to_string())),
        ]
    );
    load_freq_line(&mut t, "好學\t-5");
    load_freq_line(&mut t, "好學\t99999999999999999999");
    assert_eq!(readings(&t, "好學生")[0].0, "好");
}

#[test]
fn negative_frequencies_load() {
    let mut t = Trie::new();
    load_records(&mut t, "好學\thou3 hok6\n學生\thok6 saang1\n", RecordKind::Words);
    load_freq_line(&mut t, "學生\t-9223372036854775808");
    load_freq_line(&mut t, "好學\t9223372036854775807");
    assert_eq!(readings(&t, "好學生")[0].0, "好學");
}

#[test]
fn build_from_four_files() {
    let t = build_trie(
        "佢\tkeoi5\n係\thai6\n好\thou2\n學\thok6\n生\tsaang1\n",
        "學生\thok6 saang1\n好學\thou3 hok6\n",
        "學生\t71278\n好學\t2847\n",
        "AB膠\tei1 bi1 gaau1\n%\tpat6 sen1\n",
    );
    assert_eq!(readings(&t, "佢係好學生").len(), 4);
    assert_eq!(readings(&t, "AB膠"), one("AB膠", Some("ei1 bi1 gaau1")));
}

const CHARS: &str = "佢\tkeoi5\n係\thai6\t90%\n係\thai2\t10%\n好\thou2\t80%\n好\thou3\t20%\n學\thok6\n生\tsaang1\t70%\n生\tsang1\t30%\n都\tdou1\n會\twui6\n大\tdaai6\n入\tjap6\n面\tmin6\n人\tjan4\n識\tsik1\n用\tjung6\n一\tjat1\n二\tji6\n我\tngo5\n做\tzou6\n你\tnei5\n世\tsai3\n界\tgaai3\n";
const WORDS: &str = "學生\thok6 saang1\n好學\thou3 hok6\n都會\tdou1 wui6\n大學\tdaai6 hok6\n都會大學\tdou1 wui6 daai6 hok6\n入面\tjap6 min6\n世界\tsai3 gaai3\n";
const FREQS: &str = "學生\t71278\n好學\t2847\n大學\t50000\n";
const LETTERED: &str = "%\tpat6 sen1\nAB膠\tei1 bi1 gaau1\nge\tge3\ncafé\tkat6 fei1\n做part-time\tzou6 paat1 taai1\nHap唔Happy呀\thep1 m4 hep1 pi2 aa3\n";

#[test]
fn test_segmentation() {
    let trie = build_trie(CHARS, WORDS, FREQS, LETTERED);

    let cases: Vec<(&str, Vec<(&str, Option<&str>)>)> = vec![
        (
            "佢係好學生",
            vec![
                ("佢", Some("keoi5")),
                ("係", Some("hai6")),
                ("好", Some("hou2")),
                ("學生", Some("hok6 saang1")),
            ],
        ),
        (
            "都會大學入面3%人識用AB膠",
            vec![
                ("都會大學", Some("dou1 wui6 daai6 hok6")),
                ("入面", Some("jap6 min6")),
                ("3", None),
                ("%", Some("pat6 sen1")),
                ("人", Some("jan4")),
                ("識", Some("sik1")),
                ("用", Some("jung6")),
                ("AB膠", Some("ei1 bi1 gaau1")),
            ],
        ),
        ("abc", vec![("abc", None)]),
        ("ge", vec![("ge", Some("ge3"))]),
        (
            "ABCD 一二",
            vec![
                ("ABCD", None),
                (" ", None),
                ("一", Some("jat1")),
                ("二", Some("ji6")),
            ],
        ),
        (
            "café好",
            vec![("café", Some("kat6 fei1")), ("好", Some("hou2"))],
        ),
        (
            "我做part-time",
            vec![("我", Some("ngo5")), ("做part-time", Some("zou6 paat1 taai1"))],
        ),
        (
            "Hap唔Happy呀",
            vec![("Hap唔Happy呀", Some("hep1 m4 hep1 pi2 aa3"))],
        ),
        (
            "你好\n世界",
            vec![
                ("你", Some("nei5")),
                ("好", Some("hou2")),
                ("\n", None),
                ("世界", Some("sai3 gaai3")),
            ],
        ),
    ];

    for (input, expected) in &cases {
        println!("Testing: {}", input);
        let result = trie.segment(input);
        assert_eq!(
            result.len(),
            expected.len(),
            "token count mismatch for {:?}: got [{}]",
            input,
            result
                .iter()
                .map(|t| format!("{:?}", t.word))
                .collect::<Vec<_>>()
                .join(", ")
        );
        for (i, token) in result.iter().enumerate() {
            assert_eq!(token.word, expected[i].0, "word mismatch at index {} for {:?}", i, input);
            assert_eq!(
                token.reading.as_deref(),
                expected[i].1,
                "reading mismatch at index {} for {:?} (word={:?})",
                i,
                input,
                token.word
            );
        }
    }
}
