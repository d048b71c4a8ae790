use samply_hotspots::args::{plan_run, Args, ArgsError, RunError, RunPlan};
use samply_hotspots::number::IntErrorKind;

fn args() -> Args {
    Args {
        profile: "/tmp/profile.json".to_string(),
        binary: Some("/bin/app".to_string()),
        base: "0x100000000".to_string(),
        mixed: false,
        cpu_weighted: false,
        top: 25,
        resolve_limit: 40,
        targets: vec![],
        line_resolve_limit: 200,
    }
}

#[test]
fn targets_need_a_single_image_profile() {
    let mut a = args();
    assert_eq!(a.validate(), Ok(()));
    a.targets = vec!["hot".to_string()];
    assert_eq!(a.validate(), Ok(()));
    a.mixed = true;
    assert_eq!(a.validate(), Err(ArgsError::TargetsNeedSingleImage));
    a.targets.clear();
    assert_eq!(a.validate(), Ok(()));
}

#[test]
fn run_plan_needs_binary_and_base_unless_mixed() {
    let mut a = args();
    assert_eq!(plan_run(&a), Ok(RunPlan::Single { base: 0x1_0000_0000 }));
    a.base = "4096".to_string();
    assert_eq!(plan_run(&a), Ok(RunPlan::Single { base: 4096 }));
    a.base = "zz".to_string();
    assert_eq!(plan_run(&a), Err(RunError::InvalidBase(IntErrorKind::InvalidDigit)));
    a.binary = None;
    assert_eq!(plan_run(&a), Err(RunError::MissingBinary));
    a.mixed = true;
    assert_eq!(plan_run(&a), Ok(RunPlan::Mixed));
}
