use qst_ext_appsearcher_rust::config::sys::{
    app_from_command, arg_hint, dir_of_program, extract_app, split_command, update_entry,
};
use qst_ext_appsearcher_rust::config::{Appattr, Info};

const VSCODE: &str = "[Desktop Entry]
Name=Visual Studio Code
Comment=Code Editing. Redefined.
GenericName=Text Editor
Exec=/usr/share/code/code --unity-launch %F
Icon=vscode
Type=Application
StartupNotify=false
StartupWMClass=Code
Categories=TextEditor;Development;IDE;
MimeType=text/plain;inode/directory;application/x-code-workspace;
Actions=new-empty-window;
Keywords=vscode;

[Desktop Action new-empty-window]
Name=New Empty Window
Exec=/usr/share/code/code --new-window %F
Icon=vscode
";

fn attr(dir: &str, exec: &str, args: &str, hint: Option<&str>) -> Appattr {
    Appattr {
        dir: dir.to_string(),
        executable: exec.to_string(),
        freq: 0,
        args: args.to_string(),
        arg_hint: hint.map(|h| h.to_string()),
    }
}

#[test]
fn reg_test() {
    assert_eq!(
        extract_app(VSCODE).unwrap(),
        (
            "Visual Studio Code".to_string(),
            Appattr {
                dir: "/usr/share/code".to_string(),
                executable: "/usr/share/code/code".to_string(),
                freq: 0,
                args: "--unity-launch %F".to_string(),
                arg_hint: Some("files".to_string()),
            }
        )
    );
}

#[test]
fn extract_app_without_entry_is_none() {
    assert_eq!(extract_app("Name=x\nExec=y\n"), None);
    assert_eq!(extract_app("[Desktop Entry]\nName=only a name\n"), None);
}

#[test]
fn extract_app_exec_first_without_field_code() {
    let got = extract_app("[Desktop Entry]\nExec=htop\nName=Htop\n").unwrap();
    assert_eq!(got, ("Htop".to_string(), attr("/usr/local/bin", "htop", "", None)));
}

#[test]
fn split_command_at_first_space() {
    assert_eq!(split_command("a b  c"), ("a".to_string(), "b  c".to_string()));
    assert_eq!(split_command("alone"), ("alone".to_string(), String::new()));
    assert_eq!(split_command(" lead"), (String::new(), "lead".to_string()));
}

#[test]
fn dir_is_before_last_slash() {
    assert_eq!(dir_of_program("/usr/bin/vim"), "/usr/bin");
    assert_eq!(dir_of_program("/vim"), "");
    assert_eq!(dir_of_program("vim"), "/usr/local/bin");
}

#[test]
fn field_codes_give_hints() {
    assert_eq!(arg_hint("f"), "file");
    assert_eq!(arg_hint("F"), "files");
    assert_eq!(arg_hint("u"), "url");
    assert_eq!(arg_hint("U"), "urls");
    assert_eq!(arg_hint("i"), "todo");
    assert_eq!(app_from_command("gimp %U"), attr("/usr/local/bin", "gimp", "%U", Some("urls")));
    assert_eq!(app_from_command("/bin/x %k %f"), attr("/bin", "/bin/x", "%k %f", Some("todo")));
    assert_eq!(app_from_command("/bin/x 50%"), attr("/bin", "/bin/x", "50%", None));
}

#[test]
fn update_entry_stores_and_replaces_by_name() {
    let mut info = Info::default();
    assert!(update_entry(&mut info, VSCODE));
    assert_eq!(info.apps.len(), 1);
    assert!(update_entry(&mut info, "[Desktop Entry]\nName=Htop\nExec=htop\n"));
    assert!(update_entry(&mut info, "[Desktop Entry]\nName=Htop\nExec=/usr/bin/htop -t\n"));
    assert_eq!(info.apps.len(), 2);
    assert_eq!(info.apps[1], ("Htop".to_string(), attr("/usr/bin", "/usr/bin/htop", "-t", None)));
    assert!(!update_entry(&mut info, "no entry here"));
    assert_eq!(info.apps.len(), 2);
}

#[test]
fn update_entry_refuses_entry_with_two_names() {
    let mut info = Info::default();
    assert!(!update_entry(&mut info, "[Desktop Entry]\nName=A\nName=B\nExec=x\n"));
    assert!(info.apps.is_empty());
}

#[test]
fn upsert_keeps_position_of_existing_name() {
    let mut info = Info::default();
    info.upsert("a".to_string(), attr("/", "a", "", None));
    info.upsert("b".to_string(), attr("/", "b", "", None));
    info.upsert("a".to_string(), attr("/x", "a2", "", None));
    assert_eq!(info.apps.len(), 2);
    assert_eq!(info.apps[0], ("a".to_string(), attr("/x", "a2", "", None)));
    assert_eq!(info.apps[1].0, "b");
}
