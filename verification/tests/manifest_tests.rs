use voice::label::Label;
use voice::manifest::{cache_path, parse_command, parse_entry, parse_manifest, split_fields, split_lines, trim, Command};

fn chars(s: &str) -> Vec<char> {
    s.chars().collect()
}

fn text(v: &[char]) -> String {
    v.iter().collect()
}

fn texts(v: &[Vec<char>]) -> Vec<String> {
    v.iter().map(|x| text(x)).collect()
}

#[test]
fn trim_matches_str_trim() {
    for s in ["  ab \t", "ab", "", "   ", "\u{a0}x\u{3000}", " a b ", "\r\n x \n"] {
        assert_eq!(text(&trim(&chars(s))), s.trim());
    }
}

#[test]
fn split_matches_str_split() {
    for s in ["a,b,,c", "", ",", "abc", "a,"] {
        let expected: Vec<String> = s.split(',').map(|x| x.to_string()).collect();
        assert_eq!(texts(&split_fields(&chars(s), ',')), expected);
    }
}

#[test]
fn lines_match_str_lines() {
    for s in ["h\r\na\nb\r\n", "a\n\nb", "x\r", "", "\n", "one", "a\r\r\nb"] {
        let expected: Vec<String> = s.lines().map(|x| x.to_string()).collect();
        assert_eq!(texts(&split_lines(&chars(s))), expected);
    }
}

#[test]
fn entry_from_manifest_line() {
    let base = chars("./mozillavoice");
    let e = parse_entry(&chars("cv-valid-dev/sample-000004.mp3, text ,1,0,twenties, male ,us,"), &base).unwrap();
    assert_eq!(text(&e.path), "./mozillavoice/cv-valid-dev/sample-000004.mp3");
    assert_eq!(e.label, Label::Male);
    let e = parse_entry(&chars("f.mp3,t,2,0,,female,,"), &base).unwrap();
    assert_eq!(e.label, Label::Female);
    assert!(parse_entry(&chars("f.mp3,t,2,0,,other,,"), &base).is_none());
    assert!(parse_entry(&chars("f.mp3,male,x"), &base).is_none());
    assert!(parse_entry(&chars(""), &base).is_none());
}

#[test]
fn manifest_skips_header_blank_and_unlabelled_lines() {
    let csv = "filename,text,up_votes,down_votes,age,gender,accent,duration\n\
               a.mp3,hi,1,0,,male,,\n\
               \n\
               b.mp3,yo,1,0,,,,\n\
               c.mp3,hey,1,0,,female,,\r\n";
    let entries = parse_manifest(&chars(csv), &chars("dir"));
    let got: Vec<(String, Label)> = entries.iter().map(|e| (text(&e.path), e.label)).collect();
    assert_eq!(got, vec![("dir/a.mp3".to_string(), Label::Male), ("dir/c.mp3".to_string(), Label::Female)]);
    assert!(parse_manifest(&chars(""), &chars("dir")).is_empty());
    assert!(parse_manifest(&chars("a.mp3,hi,1,0,,male,,"), &chars("dir")).is_empty());
}

#[test]
fn cache_path_replaces_csv_extension() {
    assert_eq!(text(&cache_path(&chars("./mozillavoice/cv_valid_dev.csv"))), "./mozillavoice/cv_valid_dev.cache.bin");
    assert_eq!(text(&cache_path(&chars("a.csv.csv"))), "a.cache.bin");
    assert_eq!(text(&cache_path(&chars("data"))), "data.cache.bin");
    assert_eq!(text(&cache_path(&chars(".csv"))), ".cache.bin");
}

#[test]
fn command_line_selection() {
    let args = |v: &[&str]| v.iter().map(|s| chars(s)).collect::<Vec<Vec<char>>>();
    match parse_command(&args(&["voice", "--eval", "w.safetensors"])) {
        Command::Evaluate(p) => assert_eq!(text(&p), "w.safetensors"),
        other => panic!("unexpected {:?}", other),
    }
    match parse_command(&args(&["voice", "--visualize", "w"])) {
        Command::Visualize(p) => assert_eq!(text(&p), "w"),
        other => panic!("unexpected {:?}", other),
    }
    assert!(matches!(parse_command(&args(&["voice"])), Command::Train));
    assert!(matches!(parse_command(&args(&["voice", "--eval"])), Command::Train));
    assert!(matches!(parse_command(&args(&["voice", "--train", "x"])), Command::Train));
}
