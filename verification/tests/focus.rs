use cooee::focus::{exe_name, foreground_exe};

#[test]
fn takes_the_file_name_and_lowercases_it() {
    assert_eq!(
        exe_name(r"C:\Program Files\Microsoft Office\root\Office16\OUTLOOK.EXE"),
        "outlook.exe"
    );
    assert_eq!(
        exe_name(r"C:\Windows\System32\WindowsTerminal.exe"),
        "windowsterminal.exe"
    );
}

#[test]
fn copes_with_a_bare_name_or_forward_slashes() {
    assert_eq!(exe_name("Code.exe"), "code.exe");
    assert_eq!(exe_name("/usr/bin/Thing"), "thing");
    assert_eq!(exe_name(""), "");
}

#[test]
fn no_foreground_window_has_no_name() {
    assert_eq!(foreground_exe(None), None);
    assert_eq!(foreground_exe(Some(r"C:\A\B.EXE")).as_deref(), Some("b.exe"));
    assert_eq!(exe_name(r"C:\A\"), "");
}
