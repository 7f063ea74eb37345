//! What was read of a system, and what is said of what could not be read.

use crate::double::Double;
use crate::table::lookup;
use crate::text::{lemma_views_push, optional_view, same_text, views};
use vstd::prelude::*;

verus! {

/// A file that should be there: its path, and its text or how reading it failed.
#[derive(Debug)]
pub struct Reading {
    pub path: String,
    pub text: Result<String, String>,
}

#[verifier::ext_equal]
pub struct ReadingView {
    pub path: Seq<char>,
    pub text: Result<Seq<char>, Seq<char>>,
}

impl View for Reading {
    type V = ReadingView;

    open spec fn view(&self) -> ReadingView {
        ReadingView {
            path: self.path@,
            text: match self.text {
                Ok(text) => Ok(text@),
                Err(error) => Err(error@),
            },
        }
    }
}

/// The notice about a file that could not be read.
pub open spec fn read_notice(reading: ReadingView) -> Seq<Seq<char>> {
    match reading.text {
        Ok(_) => Seq::empty(),
        Err(error) => seq!["Cannot read "@ + reading.path + ": "@ + error],
    }
}

pub(crate) fn warn(warnings: &mut Vec<String>, text: String)
    ensures
        views(final(warnings)@) == views(old(warnings)@).push(text@),
{
    proof {
        lemma_views_push(warnings@, text);
    }
    warnings.push(text);
}

/// The text of a file that should be there; a warning where there is none.
pub fn read_required<'a>(reading: &'a Reading, warnings: &mut Vec<String>) -> (result: Option<
    &'a String,
>)
    ensures
        match reading.text {
            Ok(text) => result == Some(&text),
            Err(_) => result is None,
        },
        views(final(warnings)@) == views(old(warnings)@) + read_notice(reading@),
{
    match &reading.text {
        Ok(text) => {
            assert(views(warnings@) =~= views(old(warnings)@) + read_notice(reading@));
            Some(text)
        },
        Err(error) => {
            let mut notice: String = "Cannot read ".to_owned();
            notice.append(reading.path.as_str());
            notice.append(": ");
            notice.append(error.as_str());
            warn(warnings, notice);
            assert(views(warnings@) =~= views(old(warnings)@) + read_notice(reading@));
            None
        },
    }
}

/// A name and the text of a file that tells what stands behind the name.
#[derive(Clone, Debug)]
pub struct Identity {
    pub name: String,
    pub text: Option<String>,
}

pub open spec fn identities(list: Seq<Identity>) -> Seq<(Seq<char>, Option<Seq<char>>)> {
    list.map_values(|one: Identity| (one.name@, optional_view(one.text)))
}

/// The text that a list of identities has for a name.
pub open spec fn identity_text(
    list: Seq<(Seq<char>, Option<Seq<char>>)>,
    name: Seq<char>,
) -> Option<Seq<char>> {
    match lookup(list, name) {
        Some(text) => text,
        None => None,
    }
}

pub(crate) fn find_identity<'a>(list: &'a Vec<Identity>, name: &str) -> (result: Option<&'a Identity>)
    ensures
        match result {
            Some(one) => lookup(identities(list@), name@) == Some(optional_view(one.text)),
            None => lookup(identities(list@), name@) is None,
        },
{
    let ghost all = identities(list@);
    let mut i: usize = 0;
    assert(all.skip(0) =~= all);
    while i < list.len()
        invariant
            i <= list@.len(),
            all == identities(list@),
            lookup(all, name@) == lookup(all.skip(i as int), name@),
        decreases list@.len() - i,
    {
        assert(all[i as int] == (list@[i as int].name@, optional_view(list@[i as int].text)));
        assert(all.skip(i as int).skip(1) =~= all.skip(i + 1));
        if same_text(list[i].name.as_str(), name) {
            return Some(&list[i]);
        }
        i += 1;
    }
    None
}

/// The seconds between two times; none where there was no earlier one.
pub open spec fn seconds_since(previous: Option<u64>, now: u64) -> Option<Double> {
    match previous {
        Some(then_at) => Some(
            Double::seconds(
                if now >= then_at {
                    (now - then_at) as nat
                } else {
                    0
                },
            ),
        ),
        None => None,
    }
}

pub(crate) fn elapsed_since(previous: Option<u64>, now: u64) -> (result: Option<Double>)
    ensures
        result == seconds_since(previous, now),
{
    match previous {
        Some(then_at) => Some(Double::from_nanoseconds(now.saturating_sub(then_at))),
        None => None,
    }
}

} // verus!
