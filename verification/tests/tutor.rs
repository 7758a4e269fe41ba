use ftd_p11::tutor::{
    is_tutor, is_workshop_folder, title_and_about_from_readme, TutorStateFS, Tutorial, Workshop,
};

fn strings(items: &[&str]) -> Vec<String> {
    items.iter().map(|s| s.to_string()).collect()
}

#[test]
fn workshop_folders() {
    assert!(is_workshop_folder("a-hello"));
    assert!(is_workshop_folder("Z-b"));
    assert!(is_workshop_folder("a-b c/d"));
    assert!(!is_workshop_folder("a-"));
    assert!(!is_workshop_folder("a-1"));
    assert!(!is_workshop_folder("ab-c"));
    assert!(!is_workshop_folder("1-a"));
    assert!(!is_workshop_folder(" a-b"));
    assert!(!is_workshop_folder(""));
}

#[test]
fn tutor_mode() {
    assert!(is_tutor(&strings(&["fastn", "tutor"])));
    assert!(is_tutor(&strings(&["fastn", "--tutor", "x"])));
    assert!(!is_tutor(&strings(&["fastn", "-tutor", "tutors"])));
    assert!(!is_tutor(&strings(&[])));
}

#[test]
fn readme_is_cut_at_its_first_blank_line() {
    assert_eq!(
        title_and_about_from_readme("Title\n\nAbout\n\nmore"),
        Some(("Title".to_string(), "About\n\nmore".to_string()))
    );
    assert_eq!(
        title_and_about_from_readme("\n\n\n"),
        Some(("".to_string(), "\n".to_string()))
    );
    assert_eq!(title_and_about_from_readme("Title\nAbout\n"), None);
    assert_eq!(title_and_about_from_readme(""), None);
}

#[test]
fn tutorial_state() {
    let state = TutorStateFS { done: strings(&["a-one/first", "b/x"]), current: "a-one/second".into() };
    let first = Tutorial::load("a-one", "first", "First", "about it", &state);
    assert_eq!(
        first,
        Tutorial {
            id: "a-one/first".into(),
            title: "First".into(),
            about: "about it".into(),
            done: true,
            current: false,
        }
    );
    let second = Tutorial::load("a-one", "second", "Second", "", &state);
    assert!(!second.done && second.current);
    assert_eq!(second.id, "a-one/second");
}

#[test]
fn workshop_state() {
    let state = TutorStateFS { done: strings(&["w/a"]), current: "w/b".into() };
    let a = Tutorial::load("w", "a", "A", "", &state);
    let b = Tutorial::load("w", "b", "B", "", &state);
    let both = Workshop::load("W", "about", vec![a.clone(), b.clone()]);
    assert!(!both.done && both.current);
    assert_eq!(both.tutorials, vec![a.clone(), b]);
    let one = Workshop::load("W", "about", vec![a]);
    assert!(one.done && !one.current);
    let none = Workshop::load("W", "about", vec![]);
    assert!(none.done && !none.current);
    assert_eq!((none.title.as_str(), none.about.as_str()), ("W", "about"));
}
