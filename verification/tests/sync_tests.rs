use vim_flavor::Action;
use vim_flavor::Flavor;
use vim_flavor::InstallError;
use vim_flavor::Mode;
use vim_flavor::Outcome;
use vim_flavor::ParseError;
use vim_flavor::complete;
use vim_flavor::dir_name;
use vim_flavor::is_invalid;
use vim_flavor::judge;
use vim_flavor::plan;

fn entry(repo: &str) -> Flavor {
    Flavor {
        repo: repo.to_owned(),
        branch: "master".to_owned(),
    }
}

#[test]
fn test_complete() {
    let s = "vspec";
    let rs = complete(s);
    assert_eq!(rs, "git://github.com/vim-scripts/vspec.git".to_owned());

    let s = "elpinal/vim-goyacc";
    let rs = complete(s);
    assert_eq!(rs, "git://github.com/elpinal/vim-goyacc.git".to_owned());

    let s = "https://github.com/elpinal/vim-goyacc";
    let rs = complete(s);
    assert_eq!(rs, s.to_owned());
}

#[test]
fn test_is_invalid() {
    assert!(!is_invalid('a'));
    assert!(!is_invalid('1'));
    assert!(!is_invalid('.'));
    assert!(!is_invalid('-'));
    assert!(!is_invalid('_'));

    assert!(is_invalid('!'));
    assert!(is_invalid('/'));
    assert!(is_invalid('~'));
    assert!(is_invalid(' '));
    assert!(is_invalid(','));
}

#[test]
fn test_dir_name() {
    assert_eq!(dir_name("vspec"), "vspec");
    assert_eq!(dir_name("a/b"), "a_b");
    assert_eq!(dir_name("a.b-c_d"), "a.b-c_d");
    assert_eq!(dir_name("a b!"), "a_b_");
    assert_eq!(dir_name(""), "");
}

#[test]
fn test_plan_install() {
    let f = entry("vspec");

    // A missing directory is cloned from the completed URL at the branch.
    let a = plan(&f, Mode::Install, false);
    assert_eq!(
        a,
        Action::Clone {
            url: "git://github.com/vim-scripts/vspec.git".to_owned(),
            dir: "vspec".to_owned(),
            branch: "master".to_owned(),
        }
    );

    // A present directory is skipped: no backend call for it.
    assert_eq!(plan(&f, Mode::Install, true), Action::Skip);
}

#[test]
fn test_plan_update() {
    let mut f = entry("elpinal/vim-goyacc");
    f.branch = "dev".to_owned();

    // A present directory is pulled at the entry's branch.
    let a = plan(&f, Mode::Update, true);
    assert_eq!(
        a,
        Action::Pull {
            dir: "elpinal_vim-goyacc".to_owned(),
            branch: "dev".to_owned(),
        }
    );

    // A missing directory is skipped: updating never fails merely because
    // nothing was installed.
    assert_eq!(plan(&f, Mode::Update, false), Action::Skip);
}

#[test]
fn test_judge() {
    let f = entry("vspec");

    assert_eq!(judge(&f, Outcome::Exited(Some(0))), Ok(()));

    assert_eq!(
        judge(&f, Outcome::Exited(Some(128))),
        Err(InstallError::Exit(Some(128), "vspec".to_owned()))
    );

    assert_eq!(
        judge(&f, Outcome::Exited(None)),
        Err(InstallError::Exit(None, "vspec".to_owned()))
    );

    assert_eq!(
        judge(&f, Outcome::Failed("no backend".to_owned())),
        Err(InstallError::IO("no backend".to_owned()))
    );
}

#[test]
fn test_parse_error_converts() {
    assert_eq!(
        InstallError::from(ParseError::EOF),
        InstallError::Parse(ParseError::EOF)
    );
}
