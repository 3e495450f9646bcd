use vocab::parse::Parse;
use vocab::rule::{is_max, is_min};
use vocab::{classify, App, Category, English, Forbid, Str, Voc, Word};

fn strings(words: &[&str]) -> Vec<String> {
    words.iter().map(|w| w.to_string()).collect()
}

#[test]
fn alphabet_accepts_lowercase_only() {
    for c in 'a'..='z' {
        assert!(English::is_range(c));
    }
    for c in '0'..='9' {
        assert!(!English::is_range(c));
    }
    for c in "!\"#$%&'()*+,-./:;<=>?@[\\]^_`{|}~".chars() {
        assert!(!English::is_range(c));
    }
    assert!(!English::is_range('A'));
    assert!(!English::is_range(' '));
    for c in "ñáíéóúü".chars() {
        assert!(English::is_range(c));
    }
    assert!(!English::is_range('à'));
    assert_eq!(English::start(), 97);
    assert_eq!(English::end(), 122);
}

#[test]
fn trim_is_idempotent() {
    for s in ["  ", " hello ", "1/#*hello1/#*", "¿ñandú?", "a", "..x..y..", ""] {
        let once = Str::rm_start_end(s);
        assert_eq!(Str::rm_start_end(once), once);
    }
}

#[test]
fn trim_counts_characters() {
    assert_eq!(Str::rm_start_end("¿ñandú?"), "ñandú");
    assert_eq!(Str::rm_start("éé"), "éé");
    assert_eq!(Str::rm_end("añ€"), "añ");
    assert_eq!(Str::rm_start_end("a-b"), "a-b");
}

#[test]
fn trim_order_does_not_matter() {
    for s in ["  ", " hello ", "1/#*hello1/#*", "#a#", "!!"] {
        assert_eq!(Str::rm_end(Str::rm_start(s)), Str::rm_start(Str::rm_end(s)));
    }
}

#[test]
fn length_gate_bounds() {
    let at_max = "a".repeat(Word::max());
    let over_max = "a".repeat(Word::max() + 1);
    let at_min = "a".repeat(Word::min());
    let under_min = "a".repeat(Word::min() - 1);
    assert_eq!(Str::get_word(&at_max), Some(at_max.as_str()));
    assert!(Str::get_word(&over_max).is_none());
    assert_eq!(Str::get_word(&at_min), Some(at_min.as_str()));
    assert!(Str::get_word(&under_min).is_none());
    assert!(is_min("ab"));
    assert!(!is_min("abc"));
    assert!(is_max(&over_max));
    assert!(!is_max(&at_max));
    assert!(!is_min("ñañ"));
    let text = format!("{} {} {} {}", at_max, over_max, at_min, under_min);
    assert_eq!(Parse::lines(&text), vec![at_max.clone(), at_min.clone()]);
}

#[test]
fn classification_follows_rule_order() {
    assert_eq!(classify("running"), Category::Participle);
    assert_eq!(classify("worked"), Category::Past);
    assert_eq!(classify("cats"), Category::Plural);
    assert_eq!(classify("discuss"), Category::Plain);
    assert_eq!(classify("run"), Category::Plain);
    assert_eq!(classify("ing"), Category::Plain);
    assert_eq!(classify("bed"), Category::Past);
    assert!(!Str::is_match("testing"));
}

#[test]
fn groups_share_out_the_vocabulary() {
    let mut voc = Voc::new(strings(&["running", "worked", "cats", "discuss", "run", "bed", "sings"]));
    voc.direct_data();
    assert_eq!(voc.ing, strings(&["running"]));
    assert_eq!(voc.ed, strings(&["worked", "bed"]));
    assert_eq!(voc.plural, strings(&["cats", "sings"]));
    assert_eq!(voc.simple, strings(&["discuss", "run"]));
    assert!(voc.matching.is_empty());
    let total = voc.ing.len() + voc.ed.len() + voc.plural.len() + voc.simple.len() + voc.matching.len();
    assert_eq!(total, voc.list.len());
}

#[test]
fn suffix_examples() {
    assert!(Str::is_plural("houses"));
    assert!(!Str::is_plural("discuss"));
    assert!(!Str::is_plural("es"));
    assert!(Str::is_ed("worked"));
    assert!(!Str::is_ed("ed"));
    assert!(Str::is_ing("working"));
    assert!(!Str::is_ing("worknng"));
    assert!(!Str::is_ing(""));
    assert!(!Str::is_ing("ing"));
    assert!(Str::is_ing("ñing"));
}

#[test]
fn first_occurrence_order() {
    assert_eq!(Parse::lines("cat dog cat bird dog"), strings(&["cat", "dog", "bird"]));
    let lowered = strings(&["cat", "dog", "cat", "bird", "dog"]);
    assert_eq!(Parse::keep_words(&lowered), strings(&["cat", "dog", "bird"]));
}

#[test]
fn keep_words_trims_and_checks() {
    let lowered = strings(&["run.", "fast!", "a1b", "x", "ok", "\"quote\"", "run"]);
    assert_eq!(Parse::keep_words(&lowered), strings(&["run", "fast", "quote"]));
}

#[test]
fn lines_lowercases() {
    assert_eq!(Parse::lines("HELLO World ÑANDÚ"), strings(&["hello", "world", "ñandú"]));
}

#[test]
fn split_on_any_white_space() {
    assert_eq!(Parse::split("a b\tc\nd  e\u{3000}f"), strings(&["a", "b", "c", "d", "e", "f"]));
    assert!(Parse::split("   ").is_empty());
    assert!(Parse::lines("").is_empty());
}

#[test]
fn end_to_end_without_exclusions() {
    let mut app = App::new("Cats run. RUNNING fast! cats".to_string(), String::new());
    app.forbid();
    let list = app.start().unwrap();
    assert_eq!(list, strings(&["cats", "run", "running", "fast"]));
    let mut voc = Voc::new(list);
    voc.direct_data();
    assert_eq!(voc.plural, strings(&["cats"]));
    assert_eq!(voc.simple, strings(&["run", "fast"]));
    assert_eq!(voc.ing, strings(&["running"]));
    assert!(voc.ed.is_empty());
}

#[test]
fn end_to_end_with_exclusion() {
    let mut app = App::new("cat dog".to_string(), "dog".to_string());
    app.forbid();
    assert!(app.store.contains("dog"));
    assert_eq!(app.start().unwrap(), strings(&["cat"]));
}

#[test]
fn exclusion_set_holds_parsed_words() {
    let set = Forbid::start("Dog, CAT! x");
    assert!(set.contains("dog"));
    assert!(set.contains("cat"));
    assert!(!set.contains("x"));
    assert_eq!(set.len(), 2);
}

#[test]
fn missing_exclusions_are_listed() {
    let missing = Voc::missing(&strings(&["dog", "emu", "cat"]), &strings(&["cat", "dog"]));
    assert_eq!(missing, strings(&["emu"]));
}

#[test]
fn whole_list_file_is_always_written() {
    let w = Voc::write("word.on", &Vec::new()).unwrap();
    assert_eq!(w.path, "word.on");
    assert_eq!(w.content, "\n");
    assert_eq!(w.len, 0);
    assert!(Voc::write("match.on", &Vec::new()).is_none());
    let m = Voc::write("match.on", &strings(&["a", "b"])).unwrap();
    assert_eq!(m.path, "parts/match.on");
    assert_eq!(m.content, "a\nb\n");
    assert_eq!(m.len, 2);
}

#[test]
fn buckets_by_length() {
    let out = Voc::insert(&strings(&["cat", "house", "dog", "elephantine"]), "N");
    assert_eq!(out.len(), Word::max() - Word::min() + 1);
    let three = out[0].as_ref().unwrap();
    assert_eq!(three.path, "parts/N-3.on");
    assert_eq!(three.content, "cat\ndog\n");
    assert_eq!(three.len, 2);
    assert!(out[1].is_none());
    assert_eq!(out[2].as_ref().unwrap().content, "house\n");
    let eleven = out[8].as_ref().unwrap();
    assert_eq!(eleven.path, "parts/N-11.on");
    assert_eq!(eleven.content, "elephantine\n");
}

#[test]
fn full_run_lays_out_every_file() {
    let voc = App::new("Cats run. RUNNING fast! cats worked".to_string(), "fast".to_string())
        .run()
        .unwrap();
    assert_eq!(voc.list, strings(&["cats", "run", "running", "worked"]));
    assert_eq!(voc.writer.len(), 2 + 4 * (Word::max() - Word::min() + 1));
    let top = voc.writer[0].as_ref().unwrap();
    assert_eq!(top.path, "word.on");
    assert_eq!(top.content, "cats\nrun\nrunning\nworked\n");
    assert!(voc.writer[1].is_none());
    let paths: Vec<&str> = voc.writer.iter().flatten().map(|w| w.path.as_str()).collect();
    assert_eq!(paths, vec!["word.on", "parts/N-6.on", "parts/O-7.on", "parts/P-4.on", "parts/F-3.on"]);
}

#[test]
fn popularity_order() {
    let tokens = strings(&["b", "a", "c", "a", "c", "a", "d"]);
    assert_eq!(Parse::by_popularity(&tokens), strings(&["a", "c", "b", "d"]));
    assert!(Parse::by_popularity(&Vec::new()).is_empty());
    assert_eq!(Parse::sort_popular(tokens.clone()), tokens);
}
