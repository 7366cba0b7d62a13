use td::errors::TdError;
use td::session::Session;

#[test]
fn current_session_defaults_without_a_pointer_file() {
    let s = Session::get_current_session(None);
    assert_eq!(s.name, "default");
}

#[test]
fn current_session_is_the_trimmed_pointer_contents() {
    let s = Session::get_current_session(Some("work\n"));
    assert_eq!(s.name, "work");
    let s = Session::get_current_session(Some("  spaced \t"));
    assert_eq!(s.name, "spaced");
    let s = Session::get_current_session(Some("   \n"));
    assert_eq!(s.name, "");
}

#[test]
fn switching_names_the_new_session() {
    let s = Session::set_current_sesion("work");
    assert_eq!(s.name, "work");
    let after = Session::get_current_session(Some("work"));
    assert_eq!(after.name, "work");
}

#[test]
fn session_paths_hang_off_the_data_root() {
    let s = Session { name: "work".to_string() };
    assert_eq!(s.get_session_dir("/base"), "/base/td/work");
    assert_eq!(s.get_session_tasks_file("/base"), "/base/td/work/tasks.toml");
    assert_eq!(Session::current_session_file("/base"), "/base/td/current_session");
}

#[test]
fn sessions_are_named_after_their_directories() {
    let names = vec!["default".to_string(), "work".to_string()];
    let sessions = Session::get_sessions(names);
    let got: Vec<String> = sessions.into_iter().map(|s| s.name).collect();
    assert_eq!(got, vec!["default".to_string(), "work".to_string()]);
}

#[test]
fn counting_open_tasks_in_a_session() {
    let s = Session { name: "work".to_string() };
    assert_eq!(s.count_undone_tasks_in_session(None), Ok(0));
    let doc = "[[tasks]]\ndone = true\ntext = \"a\"\n[[tasks]]\ndone = false\ntext = \"b\"\n";
    assert_eq!(s.count_undone_tasks_in_session(Some(doc)), Ok(1));
    assert_eq!(
        s.count_undone_tasks_in_session(Some("junk")),
        Err(TdError::ParseError)
    );
}
