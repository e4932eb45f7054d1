use nvram_editor::grammar::{
    classify, is_bracket_chars, parse_options, restar_options, statement_chars, strip_comment_chars,
    LineKind,
};
use regex::Regex;

struct Lcg(u64);

impl Lcg {
    fn next(&mut self, n: usize) -> usize {
        self.0 = self.0.wrapping_mul(6364136223846793005).wrapping_add(1442695040888963407);
        ((self.0 >> 33) as usize) % n
    }
}

const PIECES: &[&str] = &[
    "Setup", "Question", "setup", "QUESTION", "Help", "String", "\u{17f}tring", "To\u{212a}en",
    "Token", "Offset", "Width", "WIDTH", "BIOS", "Default", "Options", "option\u{17f}", "Value",
    "=", " ", "\t", "  ", "\u{a0}", "//", "/", "*", "**", "[", "]", "[00]", "[0F]", "[fg]", "[]",
    "*[01]", "On", "Off", "x", "\u{e9}", "\r", "<1>", "0x10",
];

fn line(rng: &mut Lcg) -> String {
    let n = rng.next(9);
    let mut s = String::new();
    for _ in 0..n {
        s.push_str(PIECES[rng.next(PIECES.len())]);
    }
    s
}

fn text(s: &[char]) -> String {
    s.iter().collect()
}

#[test]
fn comments_are_cut_off_as_by_regular_expression() {
    let re = Regex::new(r"(\s*)(//.*)?$").unwrap();
    let mut rng = Lcg(1);
    for _ in 0..4000 {
        let l = line(&mut rng);
        let chars: Vec<char> = l.chars().collect();
        let want = re.captures(&l).map(|c| &l[..c.get(0).unwrap().start()]).unwrap_or(&l);
        assert_eq!(text(strip_comment_chars(&chars)), want, "{l:?}");
        assert_eq!(text(statement_chars(&chars)), want.trim(), "{l:?}");
    }
}

#[test]
fn lines_are_told_apart_as_by_regular_expressions() {
    let keys = [
        ("setup", Regex::new(r"(?i)^Setup\s+Question\s*=\s*(.*)").unwrap()),
        ("help", Regex::new(r"(?i)^Help\s+String\s*=\s*(.*)").unwrap()),
        ("token", Regex::new(r"(?i)^Token\s*=\s*(.*)").unwrap()),
        ("offset", Regex::new(r"(?i)^Offset\s*=\s*(.*)").unwrap()),
        ("width", Regex::new(r"(?i)^Width\s*=\s*(.*)").unwrap()),
        ("default", Regex::new(r"(?i)^BIOS\s+Default\s*=\s*(.*)").unwrap()),
        ("options", Regex::new(r"(?i)^Options\s*=\s*(.*)").unwrap()),
        ("value", Regex::new(r"(?i)^Value\s*=\s*(.*)").unwrap()),
    ];
    let bracket = Regex::new(r"^\s*\*?\[.*?\]").unwrap();
    let mut rng = Lcg(2);
    let mut seen = 0usize;
    for round in 0..12000 {
        let mut l = line(&mut rng);
        if round % 2 == 0 {
            l = format!(
                "{}{}={}",
                ["Setup Question", "hElp  \tString", "token", "Offset ", "Width\t", "BIOS Default",
                    "OPTION\u{17f} ", "value"][rng.next(8)],
                ["", " ", "\t"][rng.next(3)],
                l
            );
        }
        let chars: Vec<char> = l.chars().collect();
        let statement = statement_chars(&chars);
        let s = text(statement);
        let got = match classify(statement) {
            LineKind::Blank => ("blank", String::new()),
            LineKind::Setup(v) => ("setup", v),
            LineKind::Help(v) => ("help", v),
            LineKind::Token(v) => ("token", v),
            LineKind::Offset(v) => ("offset", v),
            LineKind::Width(v) => ("width", v),
            LineKind::BiosDefault(v) => ("default", v),
            LineKind::Options(v) => ("options", v),
            LineKind::Value(v) => ("value", v),
            LineKind::Bracket => ("bracket", String::new()),
            LineKind::Other => ("other", String::new()),
        };
        let mut want = ("other", String::new());
        if s.is_empty() {
            want.0 = "blank";
        } else if let Some((name, caps)) =
            keys.iter().find_map(|(name, re)| re.captures(&s).map(|c| (*name, c)))
        {
            want = (name, caps.get(1).unwrap().as_str().trim().to_string());
            seen += 1;
        } else if bracket.is_match(&s) {
            want.0 = "bracket";
        }
        assert_eq!(got, want, "{s:?}");
        assert_eq!(is_bracket_chars(statement), bracket.is_match(&s), "{s:?}");
    }
    assert!(seen > 4000);
}

fn options_by_expression(l: &str) -> Vec<(bool, String)> {
    let re = Regex::new(r"\[[0-9A-Fa-f]+\]").unwrap();
    let trimmed = l.trim();
    let starts: Vec<usize> = re.find_iter(trimmed).map(|m| m.start()).collect();
    let mut options: Vec<(bool, String)> = Vec::new();
    for &at in &starts {
        let end = trimmed[at + 1..].find('[').map_or(trimmed.len(), |n| at + 1 + n);
        let mut body = &trimmed[at..end];
        if starts.contains(&end) {
            body = body.trim_end_matches('*');
        }
        options.push((trimmed[..at].ends_with('*'), body.trim().to_string()));
    }
    let clean = trimmed.trim_start_matches('*').trim();
    if starts.is_empty() && !clean.is_empty() {
        options.push((trimmed.starts_with('*'), clean.to_string()));
    }
    options
}

fn options_of(l: &str) -> Vec<(bool, String)> {
    let chars: Vec<char> = l.chars().collect();
    parse_options(&chars).into_iter().map(|c| (c.star, c.label)).collect()
}

#[test]
fn options_are_taken_apart_as_by_regular_expression() {
    let mut rng = Lcg(3);
    let mut found = 0usize;
    for _ in 0..8000 {
        let l = line(&mut rng);
        let want = options_by_expression(&l);
        found += want.len();
        assert_eq!(options_of(&l), want, "{l:?}");
    }
    assert!(found > 4000);
}

#[test]
fn options_on_one_line() {
    assert_eq!(
        options_of("*[00]Off  [01]On"),
        vec![(true, "[00]Off".to_string()), (false, "[01]On".to_string())]
    );
    assert_eq!(
        options_of("[00]Off  *[01]On"),
        vec![(false, "[00]Off".to_string()), (true, "[01]On".to_string())]
    );
    assert_eq!(
        options_of("[00]A*B **[01]* [xy] *c"),
        vec![(false, "[00]A*B".to_string()), (true, "[01]*".to_string())]
    );
    assert_eq!(options_of(" * Disabled "), vec![(true, "Disabled".to_string())]);
    assert!(options_of(" ** ").is_empty());
}

fn restarred(l: &str, k: u128, active: Option<usize>) -> String {
    let chars: Vec<char> = l.chars().collect();
    restar_options(&chars, k, active).iter().collect()
}

#[test]
fn stars_move_and_nothing_else() {
    assert_eq!(restarred("*[00]Off  [01]On", 0, Some(1)), "[00]Off  *[01]On");
    assert_eq!(restarred("[00]Off  **[01]On", 0, Some(0)), "*[00]Off  [01]On");
    assert_eq!(restarred("[00]Off  *[01]On", 0, None), "[00]Off  [01]On");
    assert_eq!(restarred("[02]a *b [03]c", 2, Some(3)), "[02]a *b *[03]c");
    assert_eq!(restarred("* Disabled", 0, None), " Disabled");
    assert_eq!(restarred("Disabled", 0, Some(0)), "*Disabled");
    assert_eq!(restarred("* *Disabled", 0, None), " Disabled");
    assert_eq!(restarred("* *Disabled", 0, Some(0)), "* Disabled");
    assert_eq!(restarred("**Disabled*", 0, None), "Disabled*");
    assert_eq!(restarred("* *", 0, None), "* *");
}

#[test]
fn moved_stars_are_read_back() {
    let mut rng = Lcg(4);
    for _ in 0..8000 {
        let l = line(&mut rng).trim().to_string();
        let before = options_of(&l);
        let active = rng.next(3);
        let moved = restarred(&l, 1, Some(active));
        let after = options_of(&moved);
        assert_eq!(after.len(), before.len(), "{l:?}");
        assert_eq!(moved.replace('*', ""), l.replace('*', ""), "{l:?}");
        if before.iter().any(|(_, label)| label.starts_with('*')) {
            continue;
        }
        for (j, (star, label)) in after.iter().enumerate() {
            assert_eq!(label, &before[j].1, "{l:?}");
            assert_eq!(*star, active == j + 1, "{l:?}");
        }
        assert_eq!(restarred(moved.trim_start(), 1, Some(active)), moved.trim_start(), "{l:?}");
    }
}
