use blob_wrangler::kernel::{
    constraint_matches, parse_constraint, parse_kernel_version, ConstraintOp, KernelVersion,
};

#[test]
fn parse_kernel_release() {
    assert_eq!(
        parse_kernel_version("6.12.58-1.1+sam1"),
        Some(KernelVersion {
            major: 6,
            minor: 12,
            patch: 58,
        })
    );
    assert_eq!(
        parse_kernel_version("7.0.0-rc1"),
        Some(KernelVersion {
            major: 7,
            minor: 0,
            patch: 0,
        })
    );
}

#[test]
fn parses_kernel_constraints() {
    assert_eq!(
        parse_constraint("<6.1"),
        Some((
            ConstraintOp::Lt,
            KernelVersion {
                major: 6,
                minor: 1,
                patch: 0,
            }
        ))
    );
    assert_eq!(
        parse_constraint("<=6.1"),
        Some((
            ConstraintOp::Lte,
            KernelVersion {
                major: 6,
                minor: 1,
                patch: 0,
            }
        ))
    );
    assert_eq!(
        parse_constraint(">7.0"),
        Some((
            ConstraintOp::Gt,
            KernelVersion {
                major: 7,
                minor: 0,
                patch: 0,
            }
        ))
    );
    assert_eq!(
        parse_constraint(">=7.0"),
        Some((
            ConstraintOp::Gte,
            KernelVersion {
                major: 7,
                minor: 0,
                patch: 0,
            }
        ))
    );
    assert_eq!(
        parse_constraint("=5.4"),
        Some((
            ConstraintOp::Eq,
            KernelVersion {
                major: 5,
                minor: 4,
                patch: 0,
            }
        ))
    );
    assert_eq!(parse_constraint("7.0"), None);
    assert_eq!(parse_constraint(""), None);
    assert_eq!(parse_constraint("<bogus"), None);
}

#[test]
fn constraint_operators_match_against_running_kernel() {
    let running = parse_kernel_version("6.6.30").unwrap();

    assert!(constraint_matches(running, "<7.0"));
    assert!(!constraint_matches(running, "<=6.5"));
    assert!(constraint_matches(running, ">6.5"));
    assert!(constraint_matches(running, ">=6.6"));
    assert!(constraint_matches(running, "=6.6.30"));
    assert!(!constraint_matches(running, "=6.7"));
    assert!(constraint_matches(running, "*"));
    assert!(!constraint_matches(running, "bogus"));
}

#[test]
fn odd_releases() {
    let version = |major, minor, patch| Some(KernelVersion { major, minor, patch });
    assert_eq!(parse_kernel_version(""), None);
    assert_eq!(parse_kernel_version("all"), None);
    assert_eq!(parse_kernel_version("..."), None);
    assert_eq!(parse_kernel_version("5"), version(5, 0, 0));
    assert_eq!(parse_kernel_version(".5..4.3.2"), version(5, 4, 3));
    assert_eq!(parse_kernel_version("4294967296.1"), None);
    assert_eq!(parse_kernel_version("4294967295.4294967296.7"), version(4294967295, 0, 7));
}

#[test]
fn versions_compare_by_their_parts() {
    let older = parse_kernel_version("6.9.12").unwrap();
    let newer = parse_kernel_version("6.10.0").unwrap();
    assert!(older.is_earlier(newer));
    assert!(!newer.is_earlier(older));
    assert!(!older.is_earlier(older));
}

#[test]
fn opposite_constraints_exclude_each_other() {
    for release in ["6.1", "6.2.3", "7.0", "7.0.1", "8"] {
        let running = parse_kernel_version(release).unwrap();
        assert_ne!(
            constraint_matches(running, "<7.0"),
            constraint_matches(running, ">=7.0")
        );
        assert_ne!(
            constraint_matches(running, "<=7.0"),
            constraint_matches(running, ">7.0")
        );
    }
}
