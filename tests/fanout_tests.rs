use cropi::catalog::{
    location_point, normalize_separator_text, parse_catalog, plan_catalog_sync, CatalogAction,
    CatalogError, KnownStation,
};
use cropi::fanout::{occurrence_message, plan_fanout, risk_message, Candidate, Contact};
use cropi::response::JsonError;
use cropi::session::{browser_arguments, station_url, FetchError, FetchState, FetchStep, StepOutcome};

fn with_token(user_id: u128, token: &str) -> Candidate {
    Candidate { user_id, contact: Contact::Token(token.to_string()) }
}

#[test]
fn fanout_notifies_each_user_once() {
    let cs = vec![
        with_token(1, "a"),
        with_token(2, "b"),
        with_token(1, "a"),
        with_token(3, "c"),
        with_token(2, "b"),
    ];
    let out = plan_fanout(&cs, Some(9));
    let ids: Vec<u128> = out.iter().map(|r| r.user_id).collect();
    assert_eq!(ids, vec![1, 2, 3]);
    assert_eq!(out[1].token, "b");
}

#[test]
fn fanout_excludes_the_occurrence_owner() {
    let cs = vec![with_token(7, "own"), with_token(1, "a"), with_token(7, "own")];
    let out = plan_fanout(&cs, Some(7));
    let ids: Vec<u128> = out.iter().map(|r| r.user_id).collect();
    assert_eq!(ids, vec![1]);
}

#[test]
fn fanout_skips_users_without_token_or_record() {
    let cs = vec![
        Candidate { user_id: 1, contact: Contact::Unresolved },
        Candidate { user_id: 2, contact: Contact::NoToken },
        with_token(1, "late"),
    ];
    let out = plan_fanout(&cs, None);
    assert_eq!(out.len(), 1);
    assert_eq!(out[0].user_id, 1);
    assert_eq!(out[0].token, "late");
    assert!(plan_fanout(&vec![], Some(1)).is_empty());
}

#[test]
fn messages_name_the_pathogen_and_culture() {
    assert_eq!(
        occurrence_message("Ferrugem"),
        "Uma ocorrência de Ferrugem foi registrada em uma plantação próxima."
    );
    assert_eq!(
        risk_message("Ferrugem", "Soja"),
        "Detectamos que há probabilidade de Ferrugem em uma ou mais plantações de Soja."
    );
}

#[test]
fn station_url_appends_code() {
    assert_eq!(station_url("A814"), "https://tempo.inmet.gov.br/TabelaEstacoes/A814");
}

#[test]
fn browser_runs_headless_with_given_agent() {
    let args = browser_arguments("Agent/1.0");
    assert_eq!(
        args,
        vec![
            "--headless",
            "--no-sandbox",
            "--disable-gpu",
            "--disable-remote-fonts",
            "--window-size=1920,1080",
            "--user-agent=Agent/1.0",
        ]
    );
}

#[test]
fn fetch_steps_run_in_order_then_close() {
    let mut st = FetchState::start();
    let order = [
        FetchStep::Navigate,
        FetchStep::OpenFilterMenu,
        FetchStep::SetDateFilter,
        FetchStep::Confirm,
        FetchStep::WaitForTable,
        FetchStep::ExtractHtml,
        FetchStep::Close,
        FetchStep::Finished,
    ];
    for step in order {
        assert_eq!(st.step, step);
        st = st.advance(StepOutcome::Succeeded);
    }
    assert_eq!(st.error, None);
    assert_eq!(st.step, FetchStep::Finished);
}

#[test]
fn fetch_timeout_closes_without_retry() {
    let mut st = FetchState::start();
    for _ in 0..4 {
        st = st.advance(StepOutcome::Succeeded);
    }
    assert_eq!(st.step, FetchStep::WaitForTable);
    st = st.advance(StepOutcome::TimedOut);
    assert_eq!(st, FetchState { step: FetchStep::Close, error: Some(FetchError::Timeout) });
    st = st.advance(StepOutcome::Failed);
    assert_eq!(st, FetchState { step: FetchStep::Finished, error: Some(FetchError::Timeout) });
    let failed = FetchState::start().advance(StepOutcome::Failed);
    assert_eq!(failed, FetchState { step: FetchStep::Close, error: Some(FetchError::Browser) });
}

#[test]
fn catalog_rows_become_stations() {
    let html = "<table id=\"tb\"><tr><th>Cidade</th></tr>\
        <tr><td>Caxias</td><td>RS</td><td>Operante</td><td>-29,16</td><td>-51,18</td><td>750</td><td>01/01/2007</td><td>A814</td></tr>\
        <tr><td>Bento</td><td>RS</td><td>Pane</td><td>-29,1</td><td>-51,5</td><td>640</td><td>01/01/2008</td><td>A840</td></tr>\
        </table>";
    let st = parse_catalog(html).unwrap();
    assert_eq!(st.len(), 2);
    assert_eq!(st[0].city, "Caxias");
    assert_eq!(st[0].code, "A814");
    assert_eq!(st[1].situation, "Pane");
}

#[test]
fn catalog_row_with_too_few_cells_fails() {
    let html = "<table><tr><td>Caxias</td><td>RS</td></tr></table>";
    assert_eq!(parse_catalog(html).unwrap_err(), CatalogError::ShortRow);
}

#[test]
fn catalog_sync_updates_known_and_inserts_new() {
    let html = "<table>\
        <tr><td>Caxias</td><td>RS</td><td>Operante</td><td>-29,16</td><td>-51,18</td><td>750</td><td>x</td><td>A814</td></tr>\
        <tr><td>Bento</td><td>RS</td><td>Pane</td><td>-29,1</td><td>-51,5</td><td>640</td><td>x</td><td>A840</td></tr>\
        </table>";
    let st = parse_catalog(html).unwrap();
    let known = vec![
        KnownStation { id: 3, code: None },
        KnownStation { id: 5, code: Some("A814".to_string()) },
        KnownStation { id: 6, code: Some("A814".to_string()) },
    ];
    let plan = plan_catalog_sync(&st, &known);
    assert_eq!(plan.len(), 2);
    match &plan[0] {
        CatalogAction::Update { id, city, active, point } => {
            assert_eq!(*id, 5);
            assert_eq!(city, "Caxias");
            assert!(*active);
            assert_eq!(point, "POINT (-29.16 -51.18)");
        },
        _ => panic!("expected an update"),
    }
    match &plan[1] {
        CatalogAction::Insert { city, region, point, active, code } => {
            assert_eq!(city, "Bento");
            assert_eq!(region, "RS");
            assert_eq!(point, "POINT (-29.1 -51.5)");
            assert!(!*active);
            assert_eq!(code, "A840");
        },
        _ => panic!("expected an insert"),
    }
}

#[test]
fn point_text_uses_decimal_points() {
    assert_eq!(location_point("-29,16", "-51,18"), "POINT (-29.16 -51.18)");
    assert_eq!(normalize_separator_text("1,5,6"), "1.5.6");
    assert_eq!(normalize_separator_text("ação"), "ação");
}

#[test]
fn json_error_keeps_field_and_message() {
    let e = JsonError::new("email".to_string(), "arready taken".to_string());
    assert_eq!(e.field, "email");
    assert_eq!(e.message, "arready taken");
}
