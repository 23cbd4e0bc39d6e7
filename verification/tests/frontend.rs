use clashtui::ui::{ClashTuiTabBar, EventState};
use clashtui::util::{ClashSrvOp, ClashTuiUtil, UnsupportedOp};

fn s(t: &str) -> String {
    t.to_string()
}

fn test_util() -> ClashTuiUtil {
    ClashTuiUtil {
        clashtui_dir: s("/home/u/.config/clashtui"),
        profile_dir: s("/home/u/.config/clashtui/profiles"),
        clash_core_path: s("/usr/bin/mihomo"),
        clash_cfg_dir: s("/srv/clash"),
        clash_cfg_path: s("/srv/clash/config.yaml"),
        clash_srv_name: s("clash.service"),
        edit_cmd: s("vim %s"),
        open_dir_cmd: s(""),
    }
}

#[test]
fn event_consumption() {
    assert!(EventState::NotConsumed.is_notconsumed());
    assert!(!EventState::NotConsumed.is_consumed());
    assert!(EventState::WorkDone.is_consumed());
    assert!(EventState::ProfileUpdate.is_consumed());
}

#[test]
fn tabbar_starts_on_first_tab() {
    let bar = ClashTuiTabBar::new(s("Tabs"), vec![s("Profile"), s("Log")]);
    assert_eq!(bar.index, 0);
    assert_eq!(bar.selected(), Some(&s("Profile")));
}

#[test]
fn tabbar_next_wraps() {
    let mut bar = ClashTuiTabBar::new(s("Tabs"), vec![s("A"), s("B"), s("C")]);
    bar.next();
    assert_eq!(bar.selected(), Some(&s("B")));
    bar.next();
    bar.next();
    assert_eq!(bar.selected(), Some(&s("A")));
}

#[test]
fn tabbar_previous_wraps() {
    let mut bar = ClashTuiTabBar::new(s("Tabs"), vec![s("A"), s("B"), s("C")]);
    bar.previous();
    assert_eq!(bar.selected(), Some(&s("C")));
    bar.previous();
    assert_eq!(bar.selected(), Some(&s("B")));
}

#[test]
fn test_command_line_is_exact() {
    let util = test_util();
    assert_eq!(
        util.test_profile_config("/tmp/candidate.yaml", false),
        "/usr/bin/mihomo  -d /srv/clash -f /tmp/candidate.yaml -t"
    );
    assert_eq!(
        util.test_profile_config("/tmp/candidate.yaml", true),
        "/usr/bin/mihomo -m -d /srv/clash -f /tmp/candidate.yaml -t"
    );
}

#[test]
fn edit_command_substitutes_path() {
    let util = test_util();
    let (prog, args) = util.edit_file("/tmp/a profile.yaml");
    assert_eq!(prog, "sh");
    assert_eq!(args, vec![s("-c"), s("vim /tmp/a profile.yaml")]);
}

#[test]
fn open_dir_without_command_uses_system_opener() {
    let util = test_util();
    let (prog, args) = util.open_dir("/srv/clash");
    assert_eq!(prog, "xdg-open");
    assert_eq!(args, vec![s("/srv/clash")]);
}

#[test]
fn srv_ctl_start_and_stop() {
    let util = test_util();
    assert_eq!(
        util.clash_srv_ctl(ClashSrvOp::StartClashService),
        Ok((s("systemctl"), vec![s("restart"), s("clash.service")]))
    );
    assert_eq!(
        util.clash_srv_ctl(ClashSrvOp::StopClashService),
        Ok((s("systemctl"), vec![s("stop"), s("clash.service")]))
    );
}

#[test]
fn srv_ctl_test_config_goes_through_shell() {
    let util = test_util();
    assert_eq!(
        util.clash_srv_ctl(ClashSrvOp::TestClashConfig),
        Ok((
            s("sh"),
            vec![s("-c"), s("/usr/bin/mihomo  -d /srv/clash -f /srv/clash/config.yaml -t")]
        ))
    );
}

#[test]
fn srv_ctl_set_permission() {
    let util = test_util();
    assert_eq!(
        util.clash_srv_ctl(ClashSrvOp::SetPermission),
        Ok((
            s("setcap"),
            vec![
                s("'cap_net_admin,cap_net_bind_service=+ep'"),
                s("/usr/bin/mihomo")
            ]
        ))
    );
}

#[test]
fn srv_ctl_refuses_foreign_operations() {
    let util = test_util();
    assert_eq!(util.clash_srv_ctl(ClashSrvOp::InstallSrv), Err(UnsupportedOp));
    assert_eq!(util.clash_srv_ctl(ClashSrvOp::UnInstallSrv), Err(UnsupportedOp));
    assert_eq!(util.clash_srv_ctl(ClashSrvOp::EnableLoopback), Err(UnsupportedOp));
}

#[test]
fn profile_names_come_back_sorted() {
    let util = test_util();
    let names = vec![s("zz.yaml"), s("aa.yaml"), s("mm.txt")];
    assert_eq!(
        util.get_profile_names(names),
        vec![s("aa.yaml"), s("mm.txt"), s("zz.yaml")]
    );
}

#[test]
fn template_names_keep_duplicates() {
    let util = test_util();
    let names = vec![s("b"), s("a"), s("b")];
    assert_eq!(util.get_template_names(names), vec![s("a"), s("b"), s("b")]);
}
