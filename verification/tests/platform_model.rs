use ctfd_announcer::APIResponse;
use ctfd_announcer::Challenge;
use ctfd_announcer::ChallengeSolver;
use ctfd_announcer::ChallengeSolves;
use ctfd_announcer::ScoreboardEntry;
use ctfd_announcer::UpstreamError;
use ctfd_announcer::config::Config;
use ctfd_announcer::config::ConfigError;
use ctfd_announcer::ctfd::flatten_reports;
use ctfd_announcer::ctfd::scoreboard_rows;

#[test]
fn envelope_hands_out_data_only_on_success() {
    let ok: APIResponse<Vec<i64>> = APIResponse { success: true, errors: None, data: Some(vec![1, 2]) };
    assert_eq!(ok.into_data().unwrap(), vec![1, 2]);

    let no_data: APIResponse<Vec<i64>> = APIResponse { success: true, errors: None, data: None };
    assert_eq!(no_data.into_data().unwrap_err(), UpstreamError::Malformed);

    let failed: APIResponse<Vec<i64>> = APIResponse {
        success: false,
        errors: Some(vec!["not found".to_string()]),
        data: Some(vec![3]),
    };
    assert_eq!(failed.into_data().unwrap_err(), UpstreamError::Malformed);
}

#[test]
fn flatten_keeps_challenge_major_order() {
    let input = vec![
        ChallengeSolves {
            challenge: Challenge { id: 1, name: "web".to_string() },
            solvers: vec![
                ChallengeSolver { account_id: 100, name: "alpha".to_string() },
                ChallengeSolver { account_id: 101, name: "beta".to_string() },
            ],
        },
        ChallengeSolves {
            challenge: Challenge { id: 2, name: "pwn".to_string() },
            solvers: vec![ChallengeSolver { account_id: 100, name: "alpha".to_string() }],
        },
    ];
    let flat = flatten_reports(&input);
    assert_eq!(flat.len(), 3);
    assert_eq!(flat[0].challenge_id, 1);
    assert_eq!(flat[0].solver_id, 100);
    assert_eq!(flat[0].challenge_name, "web");
    assert_eq!(flat[0].solver_name, "alpha");
    assert_eq!(flat[1].challenge_id, 1);
    assert_eq!(flat[1].solver_id, 101);
    assert_eq!(flat[2].challenge_id, 2);
    assert_eq!(flat[2].solver_id, 100);
}

#[test]
fn scoreboard_rows_invert_position_keyed_lines() {
    let fetched = vec![
        (1, ScoreboardEntry { id: 10, name: "alpha".to_string() }),
        (2, ScoreboardEntry { id: 20, name: "beta".to_string() }),
    ];
    let rows = scoreboard_rows(&fetched);
    assert_eq!(rows, vec![(10, 1), (20, 2)]);
}

#[test]
fn config_accepts_complete_settings() {
    let cfg = Config::new(
        "https://hooks.example/x".to_string(),
        "https://ctf.example".to_string(),
        "test-key".to_string(),
        true,
        true,
        5,
        10,
    )
    .unwrap();
    assert_eq!(cfg.webhook_url, "https://hooks.example/x");
    assert_eq!(cfg.upstream_url, "https://ctf.example");
    assert!(cfg.announce_first_blood_only);
    assert!(cfg.skip_existing_solves_on_startup);
    assert_eq!(cfg.refresh_interval_seconds, 5);
    assert_eq!(cfg.top_n, 10);
}

#[test]
fn config_rejects_missing_required_settings() {
    let err = Config::new(
        "".to_string(),
        "https://ctf.example".to_string(),
        "k".to_string(),
        true,
        true,
        5,
        10,
    )
    .unwrap_err();
    assert_eq!(err, ConfigError::MissingWebhookUrl);

    let err = Config::new(
        "https://hooks.example/x".to_string(),
        "".to_string(),
        "k".to_string(),
        true,
        true,
        5,
        10,
    )
    .unwrap_err();
    assert_eq!(err, ConfigError::MissingUpstreamUrl);

    let err = Config::new(
        "https://hooks.example/x".to_string(),
        "https://ctf.example".to_string(),
        "".to_string(),
        true,
        true,
        5,
        10,
    )
    .unwrap_err();
    assert_eq!(err, ConfigError::MissingCredential);
}
