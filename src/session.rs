//! The remote-browser session that renders a station's table: its launch
//! arguments, its address, and the order of its steps.
use vstd::prelude::*;

verus! {

/// Address of the station-table page, to which the station code is appended.
pub const STATION_TABLE_BASE: &'static str = "https://tempo.inmet.gov.br/TabelaEstacoes/";

pub const HEADLESS: &'static str = "--headless";

pub const NO_SANDBOX: &'static str = "--no-sandbox";

pub const DISABLE_GPU: &'static str = "--disable-gpu";

pub const DISABLE_REMOTE_FONTS: &'static str = "--disable-remote-fonts";

/// A fixed window, so that the page renders its desktop layout.
pub const WINDOW_SIZE: &'static str = "--window-size=1920,1080";

pub const USER_AGENT_FLAG: &'static str = "--user-agent=";

/// The icon that opens the side menu holding the date filter.
pub const MENU_TOGGLE_SELECTOR: &'static str = "#root > div.ui.top.attached.header-container.menu > div.left.menu > i";

/// Sets the date input through the native value setter, then dispatches an
/// input event: the page listens for the event and ignores a bare change of
/// the value. Its one argument is the date, as `YYYY-MM-DD`.
pub const SET_DATE_SCRIPT: &'static str = "const [date] = arguments;
const input = document.querySelector(`#root > div.pushable.sidebar-content > .menu input[type=date]:first-of-type`);
const setter = Object.getOwnPropertyDescriptor(window.HTMLInputElement.prototype, 'value').set;
setter.call(input, date);
input.dispatchEvent(new Event('input', { bubbles: true }));";

/// The button that applies the date filter.
pub const CONFIRM_BUTTON_XPATH: &'static str = "//*[@id=\"root\"]/div[2]/div[1]/div[2]/button";

/// The body of the rendered table: its presence marks the page as ready.
pub const TABLE_BODY_SELECTOR: &'static str = ".tabela-body";

/// Seconds to wait for the table to render.
pub const TABLE_WAIT_SECONDS: u64 = 60;

/// The page of station `code`.
pub fn station_url(code: &str) -> (u: String)
    ensures
        u@ == STATION_TABLE_BASE@ + code@,
{
    let mut u = String::from_str(STATION_TABLE_BASE);
    u.append(code);
    u
}

pub open spec fn browser_arguments_spec(user_agent: Seq<char>) -> Seq<Seq<char>> {
    seq![
        HEADLESS@,
        NO_SANDBOX@,
        DISABLE_GPU@,
        DISABLE_REMOTE_FONTS@,
        WINDOW_SIZE@,
        USER_AGENT_FLAG@ + user_agent,
    ]
}

/// Launch arguments of the browser: headless, without GPU or remote fonts,
/// at a fixed window size, presenting `user_agent`.
pub fn browser_arguments(user_agent: &str) -> (args: Vec<String>)
    ensures
        args@.map_values(|a: String| a@) == browser_arguments_spec(user_agent@),
{
    let mut agent = String::from_str(USER_AGENT_FLAG);
    agent.append(user_agent);
    let args = vec![
        String::from_str(HEADLESS),
        String::from_str(NO_SANDBOX),
        String::from_str(DISABLE_GPU),
        String::from_str(DISABLE_REMOTE_FONTS),
        String::from_str(WINDOW_SIZE),
        agent,
    ];
    proof {
        assert(args@.map_values(|a: String| a@) =~= browser_arguments_spec(user_agent@));
    }
    args
}

/// A step of a table fetch, in the order in which they run.
#[derive(Clone, Copy, Debug, PartialEq, Eq, Structural)]
pub enum FetchStep {
    /// Load the station's page.
    Navigate,
    /// Open the side menu that holds the date filter.
    OpenFilterMenu,
    /// Set the date input through its value setter and dispatch an input event.
    SetDateFilter,
    /// Wait for the confirmation button and press it.
    Confirm,
    /// Wait, within a bound, for the table body to render.
    WaitForTable,
    /// Read the rendered page.
    ExtractHtml,
    /// Close the session; this runs whatever came before.
    Close,
    /// Nothing is left to do.
    Finished,
}

/// How a step went.
#[derive(Clone, Copy, Debug, PartialEq, Eq, Structural)]
pub enum StepOutcome {
    Succeeded,
    TimedOut,
    Failed,
}

/// Why a fetch gave no table.
#[derive(Clone, Copy, Debug, PartialEq, Eq, Structural)]
pub enum FetchError {
    /// The page did not render in time.
    Timeout,
    /// A browser command failed.
    Browser,
}

/// Where a fetch stands, and the first failure it met.
#[derive(Clone, Copy, Debug, PartialEq, Eq, Structural)]
pub struct FetchState {
    pub step: FetchStep,
    pub error: Option<FetchError>,
}

pub open spec fn step_after(s: FetchStep) -> FetchStep {
    match s {
        FetchStep::Navigate => FetchStep::OpenFilterMenu,
        FetchStep::OpenFilterMenu => FetchStep::SetDateFilter,
        FetchStep::SetDateFilter => FetchStep::Confirm,
        FetchStep::Confirm => FetchStep::WaitForTable,
        FetchStep::WaitForTable => FetchStep::ExtractHtml,
        FetchStep::ExtractHtml => FetchStep::Close,
        _ => FetchStep::Finished,
    }
}

/// The state after the current step ends with `outcome`: a success moves
/// on; a failure skips to closing, recording why, with no retry; closing
/// finishes whatever its outcome.
pub open spec fn next_state(st: FetchState, outcome: StepOutcome) -> FetchState {
    match st.step {
        FetchStep::Close => FetchState { step: FetchStep::Finished, error: st.error },
        FetchStep::Finished => st,
        _ => match outcome {
            StepOutcome::Succeeded => FetchState { step: step_after(st.step), error: st.error },
            StepOutcome::TimedOut => FetchState { step: FetchStep::Close, error: Some(FetchError::Timeout) },
            StepOutcome::Failed => FetchState { step: FetchStep::Close, error: Some(FetchError::Browser) },
        },
    }
}

impl FetchState {
    /// A fetch about to load the page.
    pub fn start() -> (st: FetchState)
        ensures
            st == (FetchState { step: FetchStep::Navigate, error: None }),
    {
        FetchState { step: FetchStep::Navigate, error: None }
    }

    /// The state once the current step ended with `outcome`.
    pub fn advance(&self, outcome: StepOutcome) -> (st: FetchState)
        ensures
            st == next_state(*self, outcome),
    {
        match self.step {
            FetchStep::Close => FetchState { step: FetchStep::Finished, error: self.error },
            FetchStep::Finished => *self,
            _ => match outcome {
                StepOutcome::Succeeded => {
                    let next = match self.step {
                        FetchStep::Navigate => FetchStep::OpenFilterMenu,
                        FetchStep::OpenFilterMenu => FetchStep::SetDateFilter,
                        FetchStep::SetDateFilter => FetchStep::Confirm,
                        FetchStep::Confirm => FetchStep::WaitForTable,
                        FetchStep::WaitForTable => FetchStep::ExtractHtml,
                        FetchStep::ExtractHtml => FetchStep::Close,
                        _ => FetchStep::Finished,
                    };
                    FetchState { step: next, error: self.error }
                },
                StepOutcome::TimedOut => FetchState { step: FetchStep::Close, error: Some(FetchError::Timeout) },
                StepOutcome::Failed => FetchState { step: FetchStep::Close, error: Some(FetchError::Browser) },
            },
        }
    }
}

/// Whatever step fails, the session is closed next and the failure kept.
pub proof fn lemma_failure_closes(st: FetchState, outcome: StepOutcome)
    requires
        st.step != FetchStep::Close,
        st.step != FetchStep::Finished,
        outcome != StepOutcome::Succeeded,
    ensures
        next_state(st, outcome).step == FetchStep::Close,
        next_state(st, outcome).error is Some,
{
}

} // verus!
