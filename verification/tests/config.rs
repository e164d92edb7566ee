use minigrep::{run, CasePolicy, Config};

#[test]
#[should_panic(expected = "not enough arguments")]
fn when_less_than_three_arguments_then_return_error() {
    let args = vec!["first".to_string(), "second".to_string()];
    Config::new(&args, false).unwrap();
}

#[test]
fn when_at_least_three_arguments_then_create_config() {
    let args = vec!["first".to_string(), "second".to_string(), "third".to_string()];
    let conf = Config::new(&args, false).unwrap();
    let mut sum = String::new();
    sum.push_str(&conf.query);
    sum.push_str(&conf.filename);
    assert_eq!(&sum, "secondthird");
}

#[test]
fn when_given_appropriate_config_then_can_run() {
    let args = vec!["first".to_string(), "query".to_string(), "poem.txt".to_string()];
    let poem = "I'm nobody! Who are you?\nNo query here.\nA Query there.\n";
    match Config::new(&args, false) {
        Ok(config) => assert_eq!(run(&config, poem), vec!["No query here."]),
        Err(e) => panic!("{}", e),
    }
}

#[test]
fn too_few_arguments_are_refused_with_a_message() {
    let none: Vec<String> = Vec::new();
    assert_eq!(Config::new(&none, false).err(), Some("not enough arguments"));
    let one = vec!["first".to_string()];
    assert_eq!(Config::new(&one, true).err(), Some("not enough arguments"));
    let two = vec!["first".to_string(), "second".to_string()];
    assert_eq!(Config::new(&two, true).err(), Some("not enough arguments"));
}

#[test]
fn further_arguments_are_ignored() {
    let args = vec![
        "first".to_string(),
        "second".to_string(),
        "third".to_string(),
        "fourth".to_string(),
    ];
    let config = Config::new(&args, false).unwrap();
    assert_eq!(config.query, "second");
    assert_eq!(config.filename, "third");
}

#[test]
fn case_is_ignored_only_on_request() {
    let args = vec!["first".to_string(), "second".to_string(), "third".to_string()];
    let plain = Config::new(&args, false).unwrap();
    assert!(plain.case_sensitive);
    assert_eq!(plain.policy(), CasePolicy::Sensitive);
    let ignoring = Config::new(&args, true).unwrap();
    assert!(!ignoring.case_sensitive);
    assert_eq!(ignoring.policy(), CasePolicy::Insensitive);
}

#[test]
fn run_searches_under_the_policy_of_the_config() {
    let poem = "I'm nobody! Who are you?\nNo query here.\nA Query there.\n";
    let args = vec!["first".to_string(), "query".to_string(), "poem.txt".to_string()];
    let ignoring = Config::new(&args, true).unwrap();
    assert_eq!(run(&ignoring, poem), vec!["No query here.", "A Query there."]);
    let plain = Config::new(&args, false).unwrap();
    assert_eq!(run(&plain, poem), vec!["No query here."]);
}
