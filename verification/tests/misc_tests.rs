use wikimisc::seppuku::Seppuku;
use wikimisc::timestamp::TimeStamp;
use wikimisc::toolforge_app::ToolforgeApp;
use wikimisc::toolforge_db::HostSchema;
use wikimisc::toolforge_db::ToolforgeDB;
use wikimisc::wikidata::Wikidata;

#[test]
fn test_seppuku_new() {
    let seppuku = Seppuku::new(60);
    assert_eq!(seppuku.max_seconds, 60);
    assert!(!seppuku.armed);
    assert!(!seppuku.timer_running);
}

#[test]
fn test_seppuku_disarm() {
    let mut seppuku = Seppuku::new(60);
    assert!(!seppuku.armed);

    // arm directly, without asking for the timer task
    seppuku.armed = true;
    assert!(seppuku.armed);

    seppuku.disarm();
    assert!(!seppuku.armed);
}

#[test]
fn test_seppuku_arm_and_decision() {
    let mut seppuku = Seppuku::new(60);
    let start_timer = seppuku.arm(1000);
    assert!(start_timer);
    assert!(seppuku.armed);
    assert!(!seppuku.should_exit(1050));
    assert!(!seppuku.should_exit(1060));
    assert!(seppuku.should_exit(1061));
    seppuku.alive(2000);
    assert!(!seppuku.should_exit(2060));
    assert!(seppuku.should_exit(2061));
    seppuku.disarm();
    assert!(!seppuku.should_exit(9999));
    // re-arming an armed-then-disarmed watchdog does not spawn a second
    // timer task
    let again = seppuku.arm(3000);
    assert!(!again);
}

#[test]
fn test_is_on_toolforge_consistent() {
    // The result should be consistent across calls
    let result1 = ToolforgeApp::is_on_toolforge();
    let result2 = ToolforgeApp::is_on_toolforge();
    assert_eq!(result1, result2);
}

#[test]
fn test_fix_wiki_db_name() {
    assert_eq!(ToolforgeDB::fix_wiki_db_name("be-taraskwiki"), "be_x_oldwiki");
    assert_eq!(ToolforgeDB::fix_wiki_db_name("be_taraskwiki"), "be_x_oldwiki");
    assert_eq!(ToolforgeDB::fix_wiki_db_name("be-x-oldwiki"), "be_x_oldwiki");
    assert_eq!(ToolforgeDB::fix_wiki_db_name("be_x_oldwiki"), "be_x_oldwiki");
    assert_eq!(ToolforgeDB::fix_wiki_db_name("be_x_oldwiki"), "be_x_oldwiki");
    assert_eq!(ToolforgeDB::fix_wiki_db_name("enwiki"), "enwiki");
}

#[test]
fn test_get_db_host_for_tool_db() {
    let db = ToolforgeDB::with_platform(false);
    assert_eq!(db.get_db_host_for_tool_db(), "127.0.0.1");
    let db = ToolforgeDB::with_platform(true);
    assert_eq!(db.get_db_host_for_tool_db(), "tools.labsdb");
}

#[test]
fn test_get_db_server_group() {
    let db = ToolforgeDB::with_platform(false);
    assert_eq!(db.get_db_server_group(), "");
    let db = ToolforgeDB::with_platform(true);
    assert_eq!(db.get_db_server_group(), ".web.db.svc.eqiad.wmflabs");
}

#[test]
fn test_db_host_and_schema_for_wiki() {
    let db = ToolforgeDB::with_platform(false);
    assert_eq!(
        db.db_host_and_schema_for_wiki("enwiki"),
        HostSchema::new("127.0.0.1", "enwiki_p")
    );
    let db = ToolforgeDB::with_platform(true);
    assert_eq!(
        db.db_host_and_schema_for_wiki("enwiki"),
        HostSchema::new("enwiki.web.db.svc.eqiad.wmflabs", "enwiki_p")
    );
}

#[test]
fn test_wikidata_defaults() {
    let wd = Wikidata::new();
    assert_eq!(wd.user_agent(), "wikimisc-wikidata/0.1.0");
    assert_eq!(wd.timeout_seconds(), 60);
}

#[test]
fn test_wikidata_setters() {
    let mut wd = Wikidata::new();
    wd.set_user_agent("my-tool/1.0");
    wd.set_timeout(5);
    assert_eq!(wd.user_agent(), "my-tool/1.0");
    assert_eq!(wd.timeout_seconds(), 5);
}

#[test]
fn test_timestamp_parse_and_render() {
    let t = TimeStamp::parse("20230901123456").unwrap();
    assert_eq!(t.year, 2023);
    assert_eq!(t.month, 9);
    assert_eq!(t.day, 1);
    assert_eq!(t.hour, 12);
    assert_eq!(t.minute, 34);
    assert_eq!(t.second, 56);
    assert_eq!(t.render(), "20230901123456");
}

#[test]
fn test_timestamp_rejects_bad_moments() {
    assert!(TimeStamp::parse("20230230000000").is_none());
    assert!(TimeStamp::parse("20240229000000").is_some());
    assert!(TimeStamp::parse("21000229000000").is_none());
    assert!(TimeStamp::parse("20000229000000").is_some());
    assert!(TimeStamp::parse("2023090112345").is_none());
    assert!(TimeStamp::parse("2023090112345x").is_none());
    assert!(TimeStamp::parse("20231301000000").is_none());
    assert!(TimeStamp::parse("20230901240000").is_none());
    assert!(TimeStamp::parse("20230900123456").is_none());
}
