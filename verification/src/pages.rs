//! The home page of the terminal view: a fixed-width table of all epics.
//!
//! Rendering is pure — it turns a snapshot into the full page text — so it is
//! specified exactly; the page type only reads the snapshot through its
//! repository and renders it.

use crate::codec::{dec_digits, push_str_chars, push_usize, string_from_chars};
use crate::db::{Database, JiraDatabase};
use crate::models::{status_text, Action, DBState, DbError, Epic};
use ellipse::Ellipse;
use vstd::prelude::*;

verus! {

/// What `ellipse`'s truncation returns for the given text and width: at most
/// `width` grapheme clusters of the text, with `...` appended when the text
/// was cut. The exact cut depends on grapheme segmentation, so it is left
/// abstract here; it is a function of the text and width alone.
pub uninterp spec fn ell_of(s: Seq<char>, width: int) -> Seq<char>;

/// Relies on `ellipse::Ellipse::truncate_ellipse` for `&str`: the result
/// depends only on the text and the width; a width of zero yields the empty
/// string, and the empty text stays empty.
#[verifier::external_body]
fn truncate_with_ellipsis(text: &str, width: usize) -> (r: String)
    ensures
        r@ == ell_of(text@, width as int),
        width == 0 ==> r@ == Seq::<char>::empty(),
        text@.len() == 0 ==> r@ == text@,
{
    text.truncate_ellipse(width).to_string()
}

/// The text fitted to a column of `width` grapheme clusters, with `...`
/// marking a cut; a width of zero gives an empty column.
pub fn get_column_string(text: &str, width: usize) -> (r: String)
    ensures
        r@ == ell_of(text@, width as int),
        width == 0 ==> r@ == Seq::<char>::empty(),
{
    truncate_with_ellipsis(text, width)
}

/// The heading above the epic table.
pub open spec fn page_header() -> Seq<char> {
    "-------------------------- EPICS ----------------------------------\n"@
}

/// The column headings of the epic table.
pub open spec fn column_header() -> Seq<char> {
    " id |    name    |        description        |   status   |  count \n"@
}

/// The key legend at the foot of the page.
pub open spec fn page_footer() -> Seq<char> {
    "[q] quit  |  [c] create epic  |  [:id:] navigate to epic"@
}

/// One table row: id, name, description, status and story count, each fitted
/// to its column.
pub open spec fn spec_epic_row(id: u32, e: Epic) -> Seq<char> {
    ell_of(dec_digits(id as nat), 4) + seq!['|'] + ell_of(e.name@, 10) + seq!['|'] + ell_of(
        e.description@,
        25,
    ) + seq!['|'] + ell_of(status_text(e.status), 9) + seq!['|'] + ell_of(
        dec_digits(e.stories@.len() as nat),
        5,
    )
}

/// The rows of the table, one per epic in stored (ascending id) order.
pub open spec fn spec_epic_rows(l: Seq<(u32, Epic)>) -> Seq<char>
    decreases l.len(),
{
    if l.len() == 0 {
        Seq::empty()
    } else {
        spec_epic_rows(l.drop_last()) + spec_epic_row(l.last().0, l.last().1)
    }
}

/// The full page text for a snapshot: headings, one row per epic, a blank
/// gap, and the key legend.
pub open spec fn spec_render_home_page(db: DBState) -> Seq<char> {
    page_header() + column_header() + spec_epic_rows(db.epics.entries@) + "\n\n"@ + page_footer()
}

/// Appends one epic's table row to `out`.
fn push_epic_row(out: &mut Vec<char>, id: u32, e: &Epic)
    ensures
        final(out)@ == old(out)@ + spec_epic_row(id, *e),
{
    let mut digits: Vec<char> = Vec::new();
    push_usize(&mut digits, id as usize);
    let id_text = string_from_chars(&digits);
    let c1 = get_column_string(id_text.as_str(), 4);
    let c2 = get_column_string(e.name.as_str(), 10);
    let c3 = get_column_string(e.description.as_str(), 25);
    let status_text_owned = e.status.to_string();
    let c4 = get_column_string(status_text_owned.as_str(), 9);
    let mut count_digits: Vec<char> = Vec::new();
    push_usize(&mut count_digits, e.stories.len());
    let count_text = string_from_chars(&count_digits);
    let c5 = get_column_string(count_text.as_str(), 5);
    push_str_chars(out, c1.as_str());
    out.push('|');
    push_str_chars(out, c2.as_str());
    out.push('|');
    push_str_chars(out, c3.as_str());
    out.push('|');
    push_str_chars(out, c4.as_str());
    out.push('|');
    push_str_chars(out, c5.as_str());
    proof {
        let t1 = old(out)@ + ell_of(dec_digits(id as nat), 4);
        let t2 = t1.push('|');
        let t3 = t2 + ell_of(e.name@, 10);
        let t4 = t3.push('|');
        let t5 = t4 + ell_of(e.description@, 25);
        let t6 = t5.push('|');
        let t7 = t6 + ell_of(status_text(e.status), 9);
        let t8 = t7.push('|');
        let t9 = t8 + ell_of(dec_digits(e.stories@.len() as nat), 5);
        assert(out@ == t9);
        assert(t9 =~= old(out)@ + spec_epic_row(id, *e));
    }
}

/// The full home-page text for a snapshot.
pub fn render_home_page(state: &DBState) -> (r: String)
    ensures
        r@ == spec_render_home_page(*state),
{
    let mut out: Vec<char> = Vec::new();
    push_str_chars(&mut out, "-------------------------- EPICS ----------------------------------\n");
    push_str_chars(&mut out, " id |    name    |        description        |   status   |  count \n");
    let ghost base = out@;
    let n = state.epics.entries.len();
    let mut i: usize = 0;
    while i < n
        invariant
            n == state.epics.entries@.len(),
            i <= n,
            out@ == base + spec_epic_rows(state.epics.entries@.take(i as int)),
        decreases n - i,
    {
        push_epic_row(&mut out, state.epics.entries[i].0, &state.epics.entries[i].1);
        proof {
            let pre = state.epics.entries@.take(i as int);
            assert(state.epics.entries@.take(i + 1).drop_last() =~= pre);
            assert(state.epics.entries@.take(i + 1).last() == state.epics.entries@[i as int]);
            assert(base + spec_epic_rows(state.epics.entries@.take(i + 1)) =~= (base
                + spec_epic_rows(pre)) + spec_epic_row(
                state.epics.entries@[i as int].0,
                state.epics.entries@[i as int].1,
            ));
        }
        i = i + 1;
    }
    push_str_chars(&mut out, "\n\n");
    push_str_chars(&mut out, "[q] quit  |  [c] create epic  |  [:id:] navigate to epic");
    proof {
        assert(state.epics.entries@.take(n as int) =~= state.epics.entries@);
        let t1 = base + spec_epic_rows(state.epics.entries@);
        let t2 = t1 + "\n\n"@;
        let t3 = t2 + page_footer();
        assert(out@ == t3);
        assert(Seq::<char>::empty() + page_header() =~= page_header());
        assert(t3 =~= spec_render_home_page(*state));
    }
    string_from_chars(&out)
}

/// The home page: lists every epic in the store and waits for a command.
pub struct HomePage<D: Database> {
    pub db: JiraDatabase<D>,
}

impl<D: Database> HomePage<D> {
    /// A home page over the given repository.
    pub fn new(db: JiraDatabase<D>) -> (r: Self)
        ensures
            r.db == db,
    {
        HomePage { db }
    }

    /// Turns one line of user input into the action to take. Only quitting
    /// is wired up so far: every input maps to [`Action::Exit`].
    pub fn handle_input(&self, input: &str) -> (r: Result<Option<Action>, DbError>)
        ensures
            r == Ok::<Option<Action>, DbError>(Some(Action::Exit)),
    {
        let _ = input;
        Ok(Some(Action::Exit))
    }

    /// Reads the current snapshot and renders the full page text for it.
    pub fn draw_page(&self) -> (r: Result<String, DbError>)
        requires
            self.db.inv(),
        ensures
            match r {
                Ok(text) => exists|snap: DBState|
                    #![auto]
                    snap.wf() && snap@ == self.db.state() && text@ == spec_render_home_page(snap),
                Err(e) => e == DbError::Io || e == DbError::Decode,
            },
    {
        let current_state = match self.db.read_db() {
            Ok(s) => s,
            Err(e) => return Err(e),
        };
        let text = render_home_page(&current_state);
        Ok(text)
    }
}

} // verus!
