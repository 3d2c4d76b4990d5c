use jenq::builds::{
    build_satisfies_params, get_string_params, Action, BuildDetail, BuildResult, ParamValue,
    RawParam,
};
use jenq::matcher::{
    find_build_by_nr, find_build_by_parameter, find_builds_by_parameter, ByNumberOutcome,
    StubOutcome,
};
use jenq::params::{has_equals, make_params, JobParams};

fn params_action(pairs: &[(&str, &str)]) -> Action {
    let mut ps = Vec::new();
    for (k, v) in pairs {
        ps.push(RawParam {
            name: k.to_string(),
            value: ParamValue::StringValue(v.to_string()),
        });
    }
    Action::Parameters(ps)
}

fn mk_build(number: u32, pairs: &[(&str, &str)]) -> BuildDetail {
    BuildDetail {
        number,
        timestamp: 1_500_000_000_000,
        queue_id: number as i32,
        url: format!("https://jenkins.example/job/deploy-svc/{}/", number),
        result: BuildResult::Success,
        actions: vec![params_action(pairs)],
    }
}

fn filter(pairs: &[(&str, &str)]) -> JobParams {
    let mut f = JobParams::new();
    for (k, v) in pairs {
        f.insert(k.to_string(), v.to_string());
    }
    f
}

#[test]
fn empty_filter_satisfies_any_build() {
    let empty = JobParams::new();
    assert!(build_satisfies_params(&mk_build(1, &[("env", "prod")]), &empty));
    assert!(build_satisfies_params(&mk_build(2, &[]), &empty));
    let bare = BuildDetail {
        number: 3,
        timestamp: 0,
        queue_id: 0,
        url: String::new(),
        result: BuildResult::Running,
        actions: Vec::new(),
    };
    assert!(build_satisfies_params(&bare, &empty));
}

#[test]
fn missing_key_never_satisfies() {
    let b = mk_build(1, &[("env", "prod")]);
    assert!(!build_satisfies_params(&b, &filter(&[("region", "eu")])));
}

#[test]
fn single_key_filter_exact_value() {
    let b = mk_build(1, &[("env", "prod")]);
    assert!(build_satisfies_params(&b, &filter(&[("env", "prod")])));
    assert!(!build_satisfies_params(&b, &filter(&[("env", "staging")])));
}

#[test]
fn extra_build_parameters_are_ignored() {
    let b = mk_build(1, &[("env", "prod"), ("region", "eu")]);
    assert!(build_satisfies_params(&b, &filter(&[("env", "prod")])));
}

#[test]
fn extraction_ignores_non_string_parameters() {
    let b = BuildDetail {
        number: 1,
        timestamp: 0,
        queue_id: 0,
        url: String::new(),
        result: BuildResult::Success,
        actions: vec![Action::Parameters(vec![
            RawParam {
                name: "flag".to_string(),
                value: ParamValue::BoolValue(true),
            },
            RawParam {
                name: "env".to_string(),
                value: ParamValue::StringValue("prod".to_string()),
            },
        ])],
    };
    let got = get_string_params(&b);
    assert_eq!(got.get(&"env".to_string()).map(String::as_str), Some("prod"));
    assert!(got.get(&"flag".to_string()).is_none());
}

#[test]
fn extraction_last_value_wins() {
    let b = BuildDetail {
        number: 1,
        timestamp: 0,
        queue_id: 0,
        url: String::new(),
        result: BuildResult::Success,
        actions: vec![
            params_action(&[("env", "staging")]),
            Action::Other,
            params_action(&[("env", "prod")]),
        ],
    };
    let got = get_string_params(&b);
    assert_eq!(got.get(&"env".to_string()).map(String::as_str), Some("prod"));
}

#[test]
fn extraction_of_empty_action_list() {
    let b = BuildDetail {
        number: 1,
        timestamp: 0,
        queue_id: 0,
        url: String::new(),
        result: BuildResult::Success,
        actions: Vec::new(),
    };
    let got = get_string_params(&b);
    assert!(got.get(&"env".to_string()).is_none());
}

fn deploy_svc_builds() -> Vec<StubOutcome> {
    vec![
        StubOutcome {
            number: 12,
            detail: Some(mk_build(12, &[("env", "staging")])),
        },
        StubOutcome {
            number: 11,
            detail: Some(mk_build(11, &[("env", "prod")])),
        },
        StubOutcome {
            number: 10,
            detail: None,
        },
    ]
}

#[test]
fn deploy_svc_first_match() {
    let got = find_build_by_parameter(deploy_svc_builds(), &filter(&[("env", "prod")]));
    assert_eq!(got.map(|b| b.number), Some(11));
}

#[test]
fn deploy_svc_history_skips_unresolvable() {
    let got = find_builds_by_parameter(deploy_svc_builds(), &JobParams::new());
    let numbers: Vec<u32> = got.iter().map(|b| b.number).collect();
    assert_eq!(numbers, vec![12, 11]);
}

#[test]
fn deploy_svc_by_number_unresolvable_is_an_error() {
    let got = find_build_by_nr(deploy_svc_builds(), 10, &JobParams::new());
    assert!(matches!(got, ByNumberOutcome::ResolutionFailed));
}

#[test]
fn deploy_svc_by_number_absent_is_not_found() {
    let got = find_build_by_nr(deploy_svc_builds(), 9, &JobParams::new());
    assert!(matches!(got, ByNumberOutcome::NotFound));
}

#[test]
fn find_first_returns_earliest_in_server_order() {
    let stubs = vec![
        StubOutcome {
            number: 7,
            detail: Some(mk_build(7, &[("env", "prod")])),
        },
        StubOutcome {
            number: 6,
            detail: Some(mk_build(6, &[("env", "prod")])),
        },
    ];
    let got = find_build_by_parameter(stubs, &filter(&[("env", "prod")]));
    assert_eq!(got.map(|b| b.number), Some(7));
}

#[test]
fn find_first_skips_unresolvable_without_error() {
    let stubs = vec![
        StubOutcome {
            number: 3,
            detail: None,
        },
        StubOutcome {
            number: 2,
            detail: Some(mk_build(2, &[("env", "prod")])),
        },
    ];
    let got = find_build_by_parameter(stubs, &filter(&[("env", "prod")]));
    assert_eq!(got.map(|b| b.number), Some(2));
}

#[test]
fn find_first_none_when_nothing_matches() {
    let got = find_build_by_parameter(deploy_svc_builds(), &filter(&[("env", "qa")]));
    assert!(got.is_none());
}

#[test]
fn find_all_is_the_matching_subsequence() {
    let stubs = vec![
        StubOutcome {
            number: 5,
            detail: Some(mk_build(5, &[("env", "prod")])),
        },
        StubOutcome {
            number: 4,
            detail: Some(mk_build(4, &[("env", "staging")])),
        },
        StubOutcome {
            number: 3,
            detail: None,
        },
        StubOutcome {
            number: 2,
            detail: Some(mk_build(2, &[("env", "prod")])),
        },
    ];
    let got = find_builds_by_parameter(stubs, &filter(&[("env", "prod")]));
    let numbers: Vec<u32> = got.iter().map(|b| b.number).collect();
    assert_eq!(numbers, vec![5, 2]);
}

#[test]
fn find_all_empty_when_nothing_matches() {
    let got = find_builds_by_parameter(deploy_svc_builds(), &filter(&[("env", "qa")]));
    assert!(got.is_empty());
}

#[test]
fn by_number_found_when_filter_holds() {
    let got = find_build_by_nr(deploy_svc_builds(), 11, &filter(&[("env", "prod")]));
    match got {
        ByNumberOutcome::Found(b) => assert_eq!(b.number, 11),
        _ => panic!("expected the build to be found"),
    }
}

#[test]
fn by_number_mismatch_is_told_apart_from_absence() {
    let got = find_build_by_nr(deploy_svc_builds(), 12, &filter(&[("env", "prod")]));
    assert!(matches!(got, ByNumberOutcome::FilterMismatch));
}

#[test]
fn has_equals_accepts_a_pair() {
    assert!(has_equals("env:prod".to_string()).is_ok());
    assert!(has_equals(":".to_string()).is_ok());
}

#[test]
fn has_equals_rejects_a_bare_word() {
    let got = has_equals("prod".to_string());
    assert_eq!(got, Err("Must be a key:value pair".to_string()));
}

#[test]
fn make_params_reads_pairs() {
    let vals = vec!["env:prod".to_string(), "region:eu".to_string()];
    let got = make_params(&vals);
    assert_eq!(got.get(&"env".to_string()).map(String::as_str), Some("prod"));
    assert_eq!(got.get(&"region".to_string()).map(String::as_str), Some("eu"));
    assert!(got.get(&"zone".to_string()).is_none());
}

#[test]
fn make_params_value_stops_at_second_colon() {
    let vals = vec!["url:http://example".to_string()];
    let got = make_params(&vals);
    assert_eq!(got.get(&"url".to_string()).map(String::as_str), Some("http"));
}

#[test]
fn make_params_later_argument_wins() {
    let vals = vec!["env:staging".to_string(), "env:prod".to_string()];
    let got = make_params(&vals);
    assert_eq!(got.get(&"env".to_string()).map(String::as_str), Some("prod"));
}

#[test]
fn make_params_empty_value() {
    let vals = vec!["env:".to_string()];
    let got = make_params(&vals);
    assert_eq!(got.get(&"env".to_string()).map(String::as_str), Some(""));
}

#[test]
fn insert_overwrites_existing_key() {
    let mut f = JobParams::new();
    f.insert("env".to_string(), "staging".to_string());
    f.insert("env".to_string(), "prod".to_string());
    assert_eq!(f.get(&"env".to_string()).map(String::as_str), Some("prod"));
}

#[test]
fn subset_of_follows_the_bindings() {
    let small = filter(&[("env", "prod")]);
    let big = filter(&[("env", "prod"), ("region", "eu")]);
    assert!(small.subset_of(&big));
    assert!(!big.subset_of(&small));
    assert!(JobParams::new().subset_of(&small));
}

#[test]
fn timestamp_in_whole_seconds() {
    let b = mk_build(1, &[]);
    assert_eq!(b.timestamp_secs(), 1_500_000_000);
    let mut c = mk_build(2, &[]);
    c.timestamp = 1999;
    assert_eq!(c.timestamp_secs(), 1);
    c.timestamp = u64::MAX;
    assert_eq!(c.timestamp_secs(), 18_446_744_073_709_551);
}
