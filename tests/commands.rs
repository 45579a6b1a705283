use filec::{App, Clipboard, Command, Task};

fn app(cmd: Command) -> App {
    App::new(Clipboard::new("/tmp/clip.txt".to_string()), cmd)
}

#[test]
fn copy_without_destination_goes_to_current_dir() {
    assert_eq!(app(Command::Copy { dest: None }).run(), Task::Copy(".".to_string()));
}

#[test]
fn move_to_given_destination() {
    let cmd = Command::Move { dest: Some("/tmp/out".to_string()) };
    assert_eq!(app(cmd).run(), Task::Move("/tmp/out".to_string()));
}

#[test]
fn move_without_destination_goes_to_current_dir() {
    assert_eq!(app(Command::Move { dest: None }).run(), Task::Move(".".to_string()));
}

#[test]
fn add_passes_files_on() {
    let files = vec!["a".to_string(), "../b".to_string()];
    assert_eq!(app(Command::Add { files: files.clone() }).run(), Task::Add(files));
}

#[test]
fn list_and_clear() {
    assert_eq!(app(Command::List).run(), Task::List);
    assert_eq!(app(Command::Clear).run(), Task::Clear);
}

#[test]
fn app_keeps_its_clipboard() {
    assert_eq!(app(Command::List).clipboard().path(), "/tmp/clip.txt");
}
