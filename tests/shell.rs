use steam_tables::error::Error;
use steam_tables::math::SCALE;
use steam_tables::shell::{
    handle_user_input, pressure_table, print_help, print_outro, spells_word, temperature_table,
    water_table, Action, HelpTopic, Quantity, ShellError,
};

fn words(line: &str) -> Vec<String> {
    line.split(' ').map(|w| w.to_string()).collect()
}

const PREAMBLE: &str = "t\nu\nv\nw\nx\ny\n";

#[test]
fn help_topics() {
    assert_eq!(print_help(vec![]), Ok(None));
    assert_eq!(print_help(vec!["help".to_string()]), Ok(Some(HelpTopic::Complete)));
    assert_eq!(
        print_help(vec!["help".to_string(), "Saturated-Steam".to_string()]),
        Ok(Some(HelpTopic::SaturatedSteam))
    );
    assert_eq!(
        print_help(vec!["help".to_string(), "SS".to_string()]),
        Ok(Some(HelpTopic::SaturatedSteam))
    );
    assert_eq!(
        print_help(vec!["help".to_string(), "water".to_string()]),
        Err("water".to_string())
    );
}

#[test]
fn words_match_in_any_case() {
    assert!(spells_word("QuIt", "quit"));
    assert!(!spells_word("quits", "quit"));
    assert!(!spells_word("qu1t", "quit"));
    assert_eq!(print_outro(), "");
}

#[test]
fn pressure_samples() {
    let text = format!("{}P,T\n0.5,80\n2,120\n6,160\n", PREAMBLE);
    let (_, answers) = pressure_table(text).unwrap();
    assert_eq!(answers.len(), 3);
    // 80 + (1 - 0.5) * (120 - 80) / (2 - 0.5), rounded down to nine digits.
    assert_eq!(answers[0].as_ref().unwrap()[1].1, 93_333_333_333);
    assert_eq!(answers[1].as_ref().unwrap()[1].1, 120 * SCALE);
    assert_eq!(answers[2].as_ref().unwrap()[1].1, 150 * SCALE);
}

#[test]
fn temperature_samples_out_of_range() {
    let text = format!("{}T,P\n50,1\n60,2\n", PREAMBLE);
    let (_, answers) = temperature_table(text).unwrap();
    assert!(matches!(answers[0], Err(Error::ValueOutOfRange(_, _))));
    assert!(matches!(answers[2], Err(Error::ValueOutOfRange(_, _))));
    assert!(temperature_table("short".to_string()).is_err());
}

#[test]
fn water_samples() {
    let text = format!(
        "{}P,T,h,phase\n0,0,10,liquid\n0,1000,20,liquid\n3,0,30,liquid\n3,1000,40,liquid\n",
        PREAMBLE
    );
    let (_, answers) = water_table(text).unwrap();
    assert_eq!(answers.len(), 4);
    let first = answers[2].as_ref().unwrap();
    assert_eq!(first[0], ("P".to_string(), "2".to_string()));
    assert_eq!(first[2], ("h".to_string(), "23.833333333".to_string()));
}

#[test]
fn commands_decide_actions() {
    assert_eq!(handle_user_input(words("QUIT")).unwrap(), Action::Stop);
    assert_eq!(handle_user_input(words("help")).unwrap(), Action::Help(Some(HelpTopic::Complete)));
    assert_eq!(handle_user_input(words("help ss")).unwrap(), Action::Help(Some(HelpTopic::SaturatedSteam)));
    assert_eq!(handle_user_input(words("ss")).unwrap(), Action::Help(Some(HelpTopic::SaturatedSteam)));
    assert_eq!(
        handle_user_input(words("ss t 100")).unwrap(),
        Action::Query(Quantity::Temperature, 100 * SCALE)
    );
    assert_eq!(
        handle_user_input(words("Saturated-Steam Pressure 0.5")).unwrap(),
        Action::Query(Quantity::Pressure, SCALE / 2)
    );
    assert_eq!(handle_user_input(words("ss volume 1")).unwrap(), Action::Continue);
    assert_eq!(handle_user_input(words("water 1 2")).unwrap(), Action::Continue);
}

#[test]
fn commands_that_fail() {
    assert!(matches!(handle_user_input(words("help water")), Err(ShellError::UnRecognizedParameter(p)) if p == "water"));
    assert!(matches!(handle_user_input(words("water")), Err(ShellError::UnRecognizedParameter(p)) if p == "water"));
    assert!(matches!(handle_user_input(words("ss t hot")), Err(ShellError::ParseFloatError(p)) if p == "hot"));
    assert!(matches!(handle_user_input(words("ss t")), Err(ShellError::MissingParameter)));
}
