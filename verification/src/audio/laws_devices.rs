//! Which devices are opened, and in which format.
use vstd::prelude::*;

use super::devices::{
    answers_to, includes, input_format, known, law_exact_name_is_found, lowercase, picks, Choice,
    FormatRange, Side, StreamFormat,
};
use super::engine::{DeviceError, Waited};
use super::passthrough::{continues, SessionAction, SessionEvent, SessionStep, Stage};
use crate::text::stands_at;

verus! {

/// Upper and lower case make no difference to which devices a name finds.
pub proof fn law_case_makes_no_difference(
    names: Seq<Option<String>>,
    wanted: Seq<char>,
    spelling: Seq<char>,
    i: int,
)
    requires
        lowercase(wanted) == lowercase(spelling),
    ensures
        answers_to(names, wanted, i) == answers_to(names, spelling, i),
{
}

/// A part of a name is enough, and nothing else is: a device answers to what stands somewhere in
/// its name, whatever the case.
pub proof fn law_part_of_a_name_is_enough(
    names: Seq<Option<String>>,
    wanted: Seq<char>,
    before: Seq<char>,
    after: Seq<char>,
    i: int,
)
    requires
        0 <= i < names.len(),
        names[i] matches Some(n) && lowercase(n@) == before + lowercase(wanted) + after,
    ensures
        answers_to(names, wanted, i),
{
    let hay = before + lowercase(wanted) + after;
    let k: int = before.len() as int;
    assert(hay.subrange(k, k + lowercase(wanted).len()) =~= lowercase(wanted));
    assert(stands_at(hay, lowercase(wanted), k));
}

/// A device answers to nothing that does not stand in its name, and one without a name to nothing.
pub proof fn law_other_names_are_not_found(
    names: Seq<Option<String>>,
    wanted: Seq<char>,
    i: int,
) -> (r: (Seq<char>, Seq<char>))
    requires
        0 <= i < names.len(),
        answers_to(names, wanted, i),
    ensures
        names[i] matches Some(n) && lowercase(n@) == r.0 + lowercase(wanted) + r.1,
{
    let hay = lowercase(names[i]->0@);
    let needle = lowercase(wanted);
    let k = choose|k: int| #[trigger] stands_at(hay, needle, k);
    let a = hay.take(k);
    let b = hay.skip(k + needle.len());
    assert(hay =~= a + needle + b);
    (a, b)
}

/// A device that is listed under the wanted name is found: it, or an earlier one that answers to
/// that name too, is opened.
pub proof fn law_listed_device_is_opened(
    side: Side,
    wanted: &str,
    listed: Vec<Option<String>>,
    has_default: bool,
    r: Result<Choice, DeviceError>,
    i: int,
)
    requires
        picks(side, Some(wanted), Some(listed), has_default, r),
        0 <= i < listed@.len(),
        listed@[i] matches Some(n) && n@ == wanted@,
    ensures
        r matches Ok(Choice::Listed(k)) && k <= i && answers_to(listed@, wanted@, k as int),
{
    law_exact_name_is_found(listed@, wanted@, i);
    match r {
        Ok(Choice::Listed(k)) => {
            if k > i {
                assert(!answers_to(listed@, wanted@, i));
            }
        },
        Ok(Choice::Default) => {},
        Err(DeviceError::NotFound(msg)) => {
            assert(!answers_to(listed@, wanted@, i));
        },
        Err(_) => {},
    }
}

/// The system's default is opened if and only if no name is given; without one, and for a name that
/// no device answers to, there is an error.
pub proof fn law_default_is_for_no_name(
    side: Side,
    wanted: Option<&str>,
    listed: Option<Vec<Option<String>>>,
    has_default: bool,
    r: Result<Choice, DeviceError>,
)
    requires
        picks(side, wanted, listed, has_default, r),
    ensures
        r == Ok::<Choice, DeviceError>(Choice::Default) <==> wanted is None && has_default,
        wanted is Some && listed is None ==> r is Err,
        wanted is None && !has_default ==> r is Err,
        wanted matches Some(name) ==> (listed matches Some(names) ==> (r is Ok <==> exists|i: int|
            0 <= i < names@.len() && #[trigger] answers_to(names@, name@, i))),
{
}

/// An input that does not support the output's rate runs in its own format.
pub proof fn law_unsupported_rate_is_not_forced(
    rate: u32,
    ranges: Seq<FormatRange>,
    own: StreamFormat,
    r: StreamFormat,
)
    requires
        input_format(rate, Some(ranges), Some(own), r),
        forall|k: int| 0 <= k < ranges.len() ==> !#[trigger] includes(ranges, rate, k),
    ensures
        r == own,
{
}

/// The format that is chosen is one that the input supports, or its own.
pub proof fn law_chosen_format_is_supported(
    rate: u32,
    ranges: Seq<FormatRange>,
    own: StreamFormat,
    r: StreamFormat,
)
    requires
        input_format(rate, Some(ranges), Some(own), r),
    ensures
        r == own || exists|k: int|
            0 <= k < ranges.len() && (#[trigger] ranges[k]).channels == r.channels
                && ranges[k].min_rate <= r.sample_rate <= ranges[k].max_rate,
{
    let all = Some(ranges);
    let fits = |i: int|
        all matches Some(s) && 0 <= i < s.len() && includes(s, rate, i) && forall|j: int|
            0 <= j < i ==> !#[trigger] includes(s, rate, j);
    if exists|i: int| #[trigger] fits(i) {
        let i = choose|i: int|
            #[trigger] fits(i) && r == (StreamFormat {
                channels: ranges[i].channels,
                sample_rate: rate,
            });
        assert(ranges[i].channels == r.channels);
    }
}

/// Every device with a name is listed under it, in order, and no other name is.
pub proof fn law_every_name_is_listed(names: Seq<Option<String>>, n: String)
    ensures
        known(names).contains(n) <==> names.contains(Some(n)),
        known(names).len() <= names.len(),
    decreases names.len(),
{
    if names.len() > 0 {
        let fewer = names.drop_last();
        law_every_name_is_listed(fewer, n);
        let before = known(fewer);
        let all = known(names);
        if names.contains(Some(n)) {
            let i = choose|i: int| 0 <= i < names.len() && names[i] == Some(n);
            if i < fewer.len() {
                assert(fewer[i] == Some(n));
                let k = choose|k: int| 0 <= k < before.len() && before[k] == n;
                assert(all[k] == n);
            } else {
                assert(all[before.len() as int] == n);
            }
        }
        if all.contains(n) {
            let k = choose|k: int| 0 <= k < all.len() && all[k] == n;
            if k < before.len() {
                assert(before[k] == n);
                let i = choose|i: int| 0 <= i < fewer.len() && fewer[i] == Some(n);
                assert(names[i] == Some(n));
            } else {
                assert(names[names.len() - 1] == Some(n));
            }
        }
    }
}

/// A plain session runs until a stream fails: opened streams are waited on, a failed one is closed
/// before the pause, and devices that could not be opened are tried again.
pub proof fn law_session_runs_until_a_failure(
    event: SessionEvent,
    after: Stage,
    step: SessionStep,
)
    requires
        continues(event, after, step),
    ensures
        event matches SessionEvent::Opened(Ok(_)) ==> after is Running && step.next is Wait,
        event matches SessionEvent::Waited(Waited::Timeout) ==> after is Running && !step.release
            && step.next is Wait,
        event matches SessionEvent::Waited(w) ==> (step.release <==> !(w is Timeout)),
        step.release ==> after is Resting && step.next == SessionAction::Rest(2000),
        event matches SessionEvent::Opened(Err(_)) ==> step.next == SessionAction::Rest(2000),
{
}

} // verus!
