//! What a screen shows of a query: the typed text and a window of results
//! around a movable selection.

use std::collections::VecDeque;
use vstd::prelude::*;
use crate::query::{reached, typed, Query};
use crate::query_result::{marked, ranked, result_views, QueryResult, ResultView};
use crate::terminal::{
    background_black, background_reset, black_sequence, bold, bold_sequence, clear_all,
    clear_sequence, goto, goto_sequence, no_underline, no_underline_sequence, plain_sequence, put,
    reset, reset_sequence,
};
use crate::text::byte_length;
use vstd::string::StringExecFns;

verus! {

/// The number of results that a screen shows.
pub const WINDOW: usize = 10;

/// The typed text, the selected result, and the results before and after it.
pub struct Screen {
    query_string: String,
    pre_selected: VecDeque<QueryResult>,
    selected: Option<QueryResult>,
    post_selected: VecDeque<QueryResult>,
}

/// The mathematical value of a [`Screen`].
pub ghost struct ScreenView {
    pub query_string: Seq<char>,
    pub pre_selected: Seq<ResultView>,
    pub selected: Option<ResultView>,
    pub post_selected: Seq<ResultView>,
}

/// The value of a result that may be missing.
pub open spec fn selected_view(selected: Option<QueryResult>) -> Option<ResultView> {
    match selected {
        Some(result) => Some(result@),
        None => None,
    }
}

/// The screen that shows `text` and the first results of `results`, the
/// best one selected.
pub open spec fn showing(text: Seq<char>, results: Seq<ResultView>) -> ScreenView {
    let shown = if results.len() > WINDOW {
        results.take(WINDOW as int)
    } else {
        results
    };
    ScreenView {
        query_string: text,
        pre_selected: Seq::empty(),
        selected: if shown.len() > 0 {
            Some(shown[0])
        } else {
            None
        },
        post_selected: if shown.len() > 0 {
            shown.drop_first()
        } else {
            Seq::empty()
        },
    }
}

/// The screen after the selection moved one result down. Without a result
/// below, or without a selection, nothing moves.
pub open spec fn moved_down(screen: ScreenView) -> ScreenView {
    match screen.selected {
        Some(result) if screen.post_selected.len() > 0 => ScreenView {
            query_string: screen.query_string,
            pre_selected: screen.pre_selected.push(result),
            selected: Some(screen.post_selected[0]),
            post_selected: screen.post_selected.drop_first(),
        },
        _ => screen,
    }
}

/// The screen after the selection moved one result up. Without a result
/// above, or without a selection, nothing moves.
pub open spec fn moved_up(screen: ScreenView) -> ScreenView {
    match screen.selected {
        Some(result) if screen.pre_selected.len() > 0 => ScreenView {
            query_string: screen.query_string,
            pre_selected: screen.pre_selected.drop_last(),
            selected: Some(screen.pre_selected.last()),
            post_selected: seq![result] + screen.post_selected,
        },
        _ => screen,
    }
}

/// One result as a row of the screen: its matched characters in bold, each
/// followed by `style` to take up the style of the row again.
pub open spec fn row(result: ResultView, style: Seq<char>) -> Seq<char> {
    marked(result.path, result.positions, bold_sequence(), reset_sequence() + style) + "\n\r"@
}

/// The rows of results that are not selected, each behind a black margin.
pub open spec fn plain_rows(results: Seq<ResultView>) -> Seq<char>
    decreases results.len(),
{
    if results.len() == 0 {
        Seq::empty()
    } else {
        plain_rows(results.drop_last()) + black_sequence() + " "@ + plain_sequence() + " "@ + row(
            results.last(),
            no_underline_sequence(),
        )
    }
}

/// The row of the selected result: a bold mark in the margin, and the whole
/// row on black.
pub open spec fn selected_row(selected: Option<ResultView>) -> Seq<char> {
    match selected {
        Some(result) => black_sequence() + bold_sequence() + ">"@ + reset_sequence()
            + black_sequence() + " "@ + row(result, black_sequence()) + plain_sequence() + "\r"@,
        None => Seq::empty(),
    }
}

/// The column behind the typed text: the bytes of the prompt and of the
/// text and one more, as far as sixteen bits hold it.
pub open spec fn cursor_column(query: Seq<char>) -> u16 {
    ((byte_length(query) + byte_length(">>> "@) + 1) % 0x10000) as u16
}

/// The screen as a terminal draws it: the cleared screen, the prompt and the
/// typed text in bold, the results, and the cursor behind the typed text.
pub open spec fn rendered(screen: ScreenView) -> Seq<char> {
    clear_sequence() + goto_sequence(1, 1) + bold_sequence() + ">>> "@ + screen.query_string
        + reset_sequence() + "\n\r"@ + plain_rows(screen.pre_selected) + selected_row(
        screen.selected,
    ) + plain_rows(screen.post_selected) + goto_sequence(cursor_column(screen.query_string), 1)
}

/// The number of bytes of `text`.
fn byte_count(text: &str) -> (n: usize)
    ensures
        n == byte_length(text@),
{
    text.as_bytes().len()
}

/// Appends the row of `result` to `text`.
fn put_row(text: &mut String, result: &QueryResult, style: &String)
    ensures
        final(text)@ == old(text)@ + row(result@, style@),
{
    let ghost start = text@;
    let before = bold();
    let mut after = reset();
    put(&mut after, style);
    let line = result.highlight(before.as_str(), after.as_str());
    put(text, &line);
    text.append("\n\r");
    assert(text@ =~= start + row(result@, style@));
}

/// Appends the rows of `results` to `text`.
fn put_rows(text: &mut String, results: &VecDeque<QueryResult>)
    ensures
        final(text)@ == old(text)@ + plain_rows(result_views(results@)),
{
    let ghost start = text@;
    let ghost all = result_views(results@);
    let black = background_black();
    let plain = background_reset();
    let style = no_underline();
    let mut i: usize = 0;
    assert(text@ =~= start + plain_rows(all.take(0)));
    while i < results.len()
        invariant
            i <= results@.len(),
            all == result_views(results@),
            black@ == black_sequence(),
            plain@ == plain_sequence(),
            style@ == no_underline_sequence(),
            text@ == start + plain_rows(all.take(i as int)),
        decreases results@.len() - i,
    {
        let ghost done = plain_rows(all.take(i as int));
        put(text, &black);
        text.append(" ");
        put(text, &plain);
        text.append(" ");
        put_row(text, &results[i], &style);
        proof {
            assert(all.take(i + 1).drop_last() =~= all.take(i as int));
            assert(all.take(i + 1).last() == results@[i as int]@);
            assert(text@ =~= start + (done + black_sequence() + " "@ + plain_sequence() + " "@
                + row(results@[i as int]@, no_underline_sequence())));
        }
        i += 1;
    }
    assert(all.take(results@.len() as int) =~= all);
}

impl View for Screen {
    type V = ScreenView;

    closed spec fn view(&self) -> ScreenView {
        ScreenView {
            query_string: self.query_string@,
            pre_selected: result_views(self.pre_selected@),
            selected: selected_view(self.selected),
            post_selected: result_views(self.post_selected@),
        }
    }
}

impl Screen {
    /// An empty screen.
    pub fn new() -> (screen: Screen)
        ensures
            screen@ == showing(Seq::empty(), Seq::empty()),
    {
        let screen = Screen {
            query_string: String::new(),
            pre_selected: VecDeque::new(),
            selected: None,
            post_selected: VecDeque::new(),
        };
        assert(screen@.pre_selected =~= Seq::empty());
        assert(screen@.post_selected =~= Seq::empty());
        screen
    }

    /// Shows `query`: its text and its best results, the best one selected.
    pub fn current_query(&mut self, query: &Query)
        requires
            query.wf(),
            query.ready(),
        ensures
            final(self)@ == showing(
                typed(query@),
                ranked(reached(query.graph(), query@.last().cursors, '$')),
            ),
    {
        self.reset();
        self.query_string = query.query_string();
        let mut results = query.results();
        let ghost all = results@;
        let mut taken: usize = 0;
        while taken < WINDOW
            invariant
                taken <= WINDOW,
                results.wf(),
                query@.len() >= 1,
                all == ranked(reached(query.graph(), query@.last().cursors, '$')),
                taken <= all.len(),
                results@ == all.skip(taken as int),
                self.query_string@ == typed(query@),
                result_views(self.pre_selected@) == Seq::<ResultView>::empty(),
                taken == 0 ==> self.selected is None && result_views(self.post_selected@)
                    == Seq::<ResultView>::empty(),
                taken > 0 ==> selected_view(self.selected) == Some(all[0]) && result_views(
                    self.post_selected@,
                ) == all.subrange(1, taken as int),
            decreases WINDOW - taken,
        {
            match results.next() {
                Some(query_result) => {
                    assert(all.skip(taken as int)[0] == all[taken as int]);
                    assert(all.skip(taken as int).drop_first() =~= all.skip(taken + 1));
                    match self.selected {
                        Some(_) => {
                            let ghost before = self.post_selected@;
                            self.post_selected.push_back(query_result);
                            assert(result_views(self.post_selected@) =~= result_views(before).push(
                                query_result@,
                            ));
                            assert(all.subrange(1, taken + 1) =~= all.subrange(1, taken as int).push(
                                all[taken as int],
                            ));
                        },
                        None => {
                            self.selected = Some(query_result);
                            assert(all.subrange(1, 1) =~= Seq::<ResultView>::empty());
                        },
                    }
                    taken += 1;
                },
                None => {
                    assert(all.len() == taken);
                    assert(self@ =~= showing(typed(query@), all)) by {
                        if taken > 0 {
                            assert(all.subrange(1, taken as int) =~= all.drop_first());
                        }
                    }
                    return ;
                },
            }
        }
        assert(self@ =~= showing(typed(query@), all)) by {
            if all.len() > WINDOW {
                assert(all.subrange(1, taken as int) =~= all.take(WINDOW as int).drop_first());
            } else {
                assert(all.subrange(1, taken as int) =~= all.drop_first());
            }
        }
    }

    /// Moves the selection to the next result, if there is one.
    pub fn move_selection_down(&mut self)
        ensures
            final(self)@ == moved_down(old(self)@),
    {
        if self.post_selected.len() == 0 {
            return ;
        }
        match self.selected.take() {
            Some(query_result) => {
                let ghost above = self.pre_selected@;
                let ghost below = self.post_selected@;
                self.pre_selected.push_back(query_result);
                self.selected = self.post_selected.pop_front();
                assert(result_views(self.pre_selected@) =~= result_views(above).push(
                    query_result@,
                ));
                assert(result_views(self.post_selected@) =~= result_views(below).drop_first());
            },
            None => {},
        }
    }

    /// Moves the selection to the previous result, if there is one.
    pub fn move_selection_up(&mut self)
        ensures
            final(self)@ == moved_up(old(self)@),
    {
        if self.pre_selected.len() == 0 {
            return ;
        }
        match self.selected.take() {
            Some(query_result) => {
                let ghost above = self.pre_selected@;
                let ghost below = self.post_selected@;
                self.post_selected.push_front(query_result);
                self.selected = self.pre_selected.pop_back();
                assert(result_views(self.post_selected@) =~= seq![query_result@] + result_views(
                    below,
                ));
                assert(result_views(self.pre_selected@) =~= result_views(above).drop_last());
            },
            None => {},
        }
    }

    fn reset(&mut self)
        ensures
            final(self)@ == showing(old(self)@.query_string, Seq::empty()),
    {
        self.pre_selected.clear();
        self.post_selected.clear();
        self.selected = None;
        assert(self@.pre_selected =~= Seq::empty());
        assert(self@.post_selected =~= Seq::empty());
    }

    /// The screen as a terminal draws it.
    pub fn to_string(&self) -> (text: String)
        ensures
            text@ == rendered(self@),
    {
        let ghost view = self@;
        let strong = bold();
        let normal = reset();
        let black = background_black();
        let plain = background_reset();
        let mut text = clear_all();
        put(&mut text, &goto(1, 1));
        put(&mut text, &strong);
        text.append(">>> ");
        put(&mut text, &self.query_string);
        put(&mut text, &normal);
        text.append("\n\r");
        put_rows(&mut text, &self.pre_selected);
        let ghost above = text@;
        match &self.selected {
            Some(result) => {
                put(&mut text, &black);
                put(&mut text, &strong);
                text.append(">");
                put(&mut text, &normal);
                put(&mut text, &black);
                text.append(" ");
                put_row(&mut text, result, &black);
                put(&mut text, &plain);
                text.append("\r");
                assert(text@ =~= above + selected_row(view.selected));
            },
            None => {
                assert(text@ =~= above + selected_row(view.selected));
            },
        }
        put_rows(&mut text, &self.post_selected);
        let wide: u128 = byte_count(self.query_string.as_str()) as u128 + byte_count(">>> ") as u128
            + 1;
        let column = (wide % 0x10000) as u16;
        put(&mut text, &goto(column, 1));
        assert(text@ =~= rendered(view));
        text
    }

    /// The typed text.
    pub fn query_string(&self) -> (text: &String)
        ensures
            text@ == self@.query_string,
    {
        &self.query_string
    }

    /// The selected result.
    pub fn selected(&self) -> (result: &Option<QueryResult>)
        ensures
            selected_view(*result) == self@.selected,
    {
        &self.selected
    }

    /// Takes the selected result out of the screen; the other results stay.
    pub fn take_selected(&mut self) -> (result: Option<QueryResult>)
        ensures
            selected_view(result) == old(self)@.selected,
            final(self)@ == (ScreenView { selected: None, ..old(self)@ }),
    {
        self.selected.take()
    }

    /// The results above the selection, top first.
    pub fn pre_selected(&self) -> (results: &VecDeque<QueryResult>)
        ensures
            result_views(results@) == self@.pre_selected,
    {
        &self.pre_selected
    }

    /// The results below the selection, top first.
    pub fn post_selected(&self) -> (results: &VecDeque<QueryResult>)
        ensures
            result_views(results@) == self@.post_selected,
    {
        &self.post_selected
    }
}

} // verus!
