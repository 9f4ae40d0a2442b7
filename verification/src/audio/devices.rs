//! Which devices to open, at which rates, and what to say about it.
use vstd::prelude::*;

use super::engine::DeviceError;
use crate::text::{
    contains, contains_text, decimal, decimal_of, glue, glue3, lemma_texts_push, texts, two_texts,
};

verus! {

/// What `str::to_lowercase` makes of a text.
pub uninterp spec fn lowercase(s: Seq<char>) -> Seq<char>;

/// A text in lower case, by `str::to_lowercase`: a function of the text alone, whatever the
/// locale.
#[verifier::external_body]
fn to_lowercase(s: &str) -> (r: String)
    ensures
        r@ == lowercase(s@),
{
    s.to_lowercase()
}

/// The device at this position has a name, and the name contains the text.
pub open spec fn named_like(names: Seq<Option<String>>, needle: Seq<char>, i: int) -> bool {
    match names[i] {
        Some(n) => contains_text(n@, needle),
        None => false,
    }
}

/// The first device whose name contains a text.
pub fn first_containing(names: &Vec<Option<String>>, needle: &str) -> (r: Option<usize>)
    ensures
        match r {
            Some(i) => i < names@.len() && named_like(names@, needle@, i as int) && forall|j: int|
                0 <= j < i ==> !#[trigger] named_like(names@, needle@, j),
            None => forall|j: int|
                0 <= j < names@.len() ==> !#[trigger] named_like(names@, needle@, j),
        },
{
    let mut i: usize = 0;
    while i < names.len()
        invariant
            i <= names@.len(),
            forall|j: int| 0 <= j < i ==> !#[trigger] named_like(names@, needle@, j),
        decreases names@.len() - i,
    {
        if let Some(n) = &names[i] {
            if contains(n.as_str(), needle) {
                return Some(i);
            }
        }
        i = i + 1;
    }
    None
}

/// The device at this position has a name, and the name contains what is wanted, whatever the
/// case of their letters.
pub open spec fn answers_to(names: Seq<Option<String>>, wanted: Seq<char>, i: int) -> bool {
    match names[i] {
        Some(n) => contains_text(lowercase(n@), lowercase(wanted)),
        None => false,
    }
}

/// The first device whose name contains what is wanted, whatever the case of their letters.
pub fn find_device(names: &Vec<Option<String>>, wanted: &str) -> (r: Option<usize>)
    ensures
        match r {
            Some(i) => i < names@.len() && answers_to(names@, wanted@, i as int) && forall|j: int|
                0 <= j < i ==> !#[trigger] answers_to(names@, wanted@, j),
            None => forall|j: int|
                0 <= j < names@.len() ==> !#[trigger] answers_to(names@, wanted@, j),
        },
{
    let needle: String = to_lowercase(wanted);
    let mut lowered: Vec<Option<String>> = Vec::new();
    let mut i: usize = 0;
    while i < names.len()
        invariant
            needle@ == lowercase(wanted@),
            i <= names@.len(),
            lowered@.len() == i,
            forall|j: int|
                0 <= j < i ==> #[trigger] named_like(lowered@, needle@, j) == answers_to(
                    names@,
                    wanted@,
                    j,
                ),
        decreases names@.len() - i,
    {
        let ghost before = lowered@;
        let low: Option<String> = match &names[i] {
            Some(n) => Some(to_lowercase(n.as_str())),
            None => None,
        };
        lowered.push(low);
        proof {
            assert forall|j: int| 0 <= j < i + 1 implies #[trigger] named_like(
                lowered@,
                needle@,
                j,
            ) == answers_to(names@, wanted@, j) by {
                if j < i {
                    assert(named_like(before, needle@, j) == answers_to(names@, wanted@, j));
                }
            }
        }
        i = i + 1;
    }
    let r: Option<usize> = first_containing(&lowered, needle.as_str());
    proof {
        match r {
            Some(k) => {
                assert(named_like(lowered@, needle@, k as int));
                assert forall|j: int| 0 <= j < k implies !#[trigger] answers_to(
                    names@,
                    wanted@,
                    j,
                ) by {
                    assert(!named_like(lowered@, needle@, j));
                }
            },
            None => {
                assert forall|j: int| 0 <= j < names@.len() implies !#[trigger] answers_to(
                    names@,
                    wanted@,
                    j,
                ) by {
                    assert(!named_like(lowered@, needle@, j));
                }
            },
        }
    }
    r
}

/// A device answers to its own full name.
pub proof fn law_exact_name_is_found(names: Seq<Option<String>>, wanted: Seq<char>, i: int)
    requires
        0 <= i < names.len(),
        names[i] matches Some(n) && n@ == wanted,
    ensures
        answers_to(names, wanted, i),
{
    let s = lowercase(wanted);
    assert(s.subrange(0, s.len() as int) =~= s);
    assert(crate::text::stands_at(s, s, 0));
}

/// Microphone or loudspeaker.
#[derive(Clone, Copy, Debug, PartialEq, Eq, Structural)]
pub enum Side {
    Input,
    Output,
}

/// The side's name in messages.
pub open spec fn side_text(side: Side) -> Seq<char> {
    match side {
        Side::Input => "input"@,
        Side::Output => "output"@,
    }
}

/// The side's name in messages.
pub fn side_name(side: Side) -> (r: &'static str)
    ensures
        r@ == side_text(side),
{
    match side {
        Side::Input => "input",
        Side::Output => "output",
    }
}

/// Which device to open.
#[derive(Clone, Copy, Debug, PartialEq, Eq, Structural)]
pub enum Choice {
    /// The one at this position of the list.
    Listed(usize),
    /// The system's default.
    Default,
}

/// What is said if there is no such device.
pub open spec fn missing_text(side: Side, wanted: Option<Seq<char>>) -> Seq<char> {
    match wanted {
        Some(name) => "no "@ + side_text(side) + " device matching '"@ + name + "'"@,
        None => "no default "@ + side_text(side) + " device"@,
    }
}

/// What comes of looking for a device: the first that answers to the wanted name, or the system's
/// default if no name is given; an error if there is none. A list that could not be had is an
/// empty one.
pub open spec fn picks(
    side: Side,
    wanted: Option<&str>,
    listed: Option<Vec<Option<String>>>,
    has_default: bool,
    r: Result<Choice, DeviceError>,
) -> bool {
    match wanted {
        None => if has_default {
            r == Ok::<Choice, DeviceError>(Choice::Default)
        } else {
            r matches Err(DeviceError::NotFound(msg)) && msg@ == missing_text(side, None)
        },
        Some(name) => match r {
            Ok(Choice::Listed(i)) => {
                &&& listed matches Some(names)
                &&& i < names@.len()
                &&& answers_to(names@, name@, i as int)
                &&& forall|j: int| 0 <= j < i ==> !#[trigger] answers_to(names@, name@, j)
            },
            Ok(Choice::Default) => false,
            Err(DeviceError::NotFound(msg)) => {
                &&& msg@ == missing_text(side, Some(name@))
                &&& listed matches Some(names) ==> forall|j: int|
                    0 <= j < names@.len() ==> !#[trigger] answers_to(names@, name@, j)
            },
            Err(_) => false,
        },
    }
}

/// Picks the device to open: the first that answers to the wanted name, or the system's default
/// if no name is given.
pub fn pick_device(
    side: Side,
    wanted: Option<&str>,
    listed: &Option<Vec<Option<String>>>,
    has_default: bool,
) -> (r: Result<Choice, DeviceError>)
    ensures
        picks(side, wanted, *listed, has_default, r),
{
    match wanted {
        None => {
            if has_default {
                Ok(Choice::Default)
            } else {
                Err(DeviceError::NotFound(glue3("no default ", side_name(side), " device")))
            }
        },
        Some(name) => {
            let found: Option<usize> = match listed {
                Some(names) => find_device(names, name),
                None => None,
            };
            match found {
                Some(i) => Ok(Choice::Listed(i)),
                None => {
                    let mut msg: String = glue3("no ", side_name(side), " device matching '");
                    msg.append(name);
                    msg.append("'");
                    Err(DeviceError::NotFound(msg))
                },
            }
        },
    }
}

/// A side of a session: what is wanted, what there is, and whether the system has a default.
pub struct Offer<'a> {
    pub wanted: Option<&'a str>,
    pub listed: Option<Vec<Option<String>>>,
    pub has_default: bool,
}

impl<'a> Offer<'a> {
    /// What comes of looking for a device on this side.
    pub open spec fn gives(&self, side: Side, r: Result<Choice, DeviceError>) -> bool {
        picks(side, self.wanted, self.listed, self.has_default, r)
    }
}

/// Picks the two devices of a session, the input first: if the input is missing, nothing is said
/// of the output.
pub fn pick_devices(input: &Offer, output: &Offer) -> (r: Result<(Choice, Choice), DeviceError>)
    ensures
        match r {
            Ok((i, o)) => input.gives(Side::Input, Ok(i)) && output.gives(Side::Output, Ok(o)),
            Err(e) => input.gives(Side::Input, Err(e)) || exists|i: Choice|
                #[trigger] input.gives(Side::Input, Ok(i)) && output.gives(Side::Output, Err(e)),
        },
{
    let i: Choice = match pick_device(Side::Input, input.wanted, &input.listed, input.has_default) {
        Ok(i) => i,
        Err(e) => {
            return Err(e);
        },
    };
    assert(input.gives(Side::Input, Ok(i)));
    match pick_device(Side::Output, output.wanted, &output.listed, output.has_default) {
        Ok(o) => Ok((i, o)),
        Err(e) => Err(e),
    }
}

/// What is wanted and what there is settle the answer: looking once more gives the same device,
/// or the same message.
pub proof fn law_looking_again_finds_the_same(
    side: Side,
    wanted: Option<&str>,
    listed: Option<Vec<Option<String>>>,
    has_default: bool,
    a: Result<Choice, DeviceError>,
    b: Result<Choice, DeviceError>,
)
    requires
        picks(side, wanted, listed, has_default, a),
        picks(side, wanted, listed, has_default, b),
    ensures
        a is Ok <==> b is Ok,
        a is Ok ==> a == b,
        a matches Err(DeviceError::NotFound(m)) ==> (b matches Err(DeviceError::NotFound(n)) && m@
            == n@),
{
}

/// The format of a stream.
#[derive(Clone, Copy, Debug, PartialEq, Eq, Structural)]
pub struct StreamFormat {
    pub channels: u16,
    pub sample_rate: u32,
}

/// Formats that a device supports: a number of channels at any rate of a range.
#[derive(Clone, Copy, Debug, PartialEq, Eq, Structural)]
pub struct FormatRange {
    pub channels: u16,
    pub min_rate: u32,
    pub max_rate: u32,
}

/// The range at this position includes the rate.
pub open spec fn includes(ranges: Seq<FormatRange>, rate: u32, i: int) -> bool {
    ranges[i].min_rate <= rate <= ranges[i].max_rate
}

/// The input's format for an output of rate `rate`: that rate, with the channels of the first
/// range that includes it; else the input's own default; else one channel at that rate.
pub open spec fn input_format(
    rate: u32,
    ranges: Option<Seq<FormatRange>>,
    own: Option<StreamFormat>,
    r: StreamFormat,
) -> bool {
    let fits = |i: int|
        ranges matches Some(s) && 0 <= i < s.len() && includes(s, rate, i) && forall|j: int|
            0 <= j < i ==> !#[trigger] includes(s, rate, j);
    if exists|i: int| #[trigger] fits(i) {
        exists|i: int|
            #[trigger] fits(i) && r == (StreamFormat {
                channels: ranges->0[i].channels,
                sample_rate: rate,
            })
    } else {
        r == match own {
            Some(f) => f,
            None => StreamFormat { channels: 1, sample_rate: rate },
        }
    }
}

/// The first range that includes a rate.
pub fn first_range(ranges: &Vec<FormatRange>, rate: u32) -> (r: Option<usize>)
    ensures
        match r {
            Some(i) => i < ranges@.len() && includes(ranges@, rate, i as int) && forall|j: int|
                0 <= j < i ==> !#[trigger] includes(ranges@, rate, j),
            None => forall|j: int| 0 <= j < ranges@.len() ==> !#[trigger] includes(ranges@, rate, j),
        },
{
    let mut i: usize = 0;
    while i < ranges.len()
        invariant
            i <= ranges@.len(),
            forall|j: int| 0 <= j < i ==> !#[trigger] includes(ranges@, rate, j),
        decreases ranges@.len() - i,
    {
        if ranges[i].min_rate <= rate && rate <= ranges[i].max_rate {
            assert(includes(ranges@, rate, i as int));
            return Some(i);
        }
        i = i + 1;
    }
    None
}

/// The view of an optional list.
pub open spec fn listed_ranges(ranges: Option<Vec<FormatRange>>) -> Option<Seq<FormatRange>> {
    match ranges {
        Some(v) => Some(v@),
        None => None,
    }
}

/// Chooses formats for an input and an output that go together. The output's default rate is
/// authoritative. If the input does not support it, the input falls back to its own default, and
/// the rates differ.
pub fn negotiate_configs(
    output_default: Result<StreamFormat, String>,
    input_ranges: Option<Vec<FormatRange>>,
    input_default: Option<StreamFormat>,
) -> (r: Result<(StreamFormat, StreamFormat), DeviceError>)
    ensures
        match output_default {
            Ok(output) => r matches Ok(pair) && pair.1 == output && input_format(
                output.sample_rate,
                listed_ranges(input_ranges),
                input_default,
                pair.0,
            ),
            Err(e) => r matches Err(DeviceError::StreamBuildFailed(msg)) && msg@
                == "no output config: "@ + e@,
        },
{
    let output: StreamFormat = match output_default {
        Ok(f) => f,
        Err(e) => {
            return Err(
                DeviceError::StreamBuildFailed(glue("no output config: ", e.as_str())),
            );
        },
    };
    let rate: u32 = output.sample_rate;
    let ghost all = listed_ranges(input_ranges);
    let ghost fits = |i: int|
        all matches Some(s) && 0 <= i < s.len() && includes(s, rate, i) && forall|j: int|
            0 <= j < i ==> !#[trigger] includes(s, rate, j);
    if let Some(ranges) = &input_ranges {
        if let Some(i) = first_range(ranges, rate) {
            let input: StreamFormat = StreamFormat {
                channels: ranges[i].channels,
                sample_rate: rate,
            };
            assert(fits(i as int));
            assert(input_format(rate, all, input_default, input));
            return Ok((input, output));
        }
    }
    let input: StreamFormat = match input_default {
        Some(f) => f,
        None => StreamFormat { channels: 1, sample_rate: rate },
    };
    assert(forall|i: int| !#[trigger] fits(i));
    Ok((input, output))
}

/// A device that supports the output's rate runs at it, so that nothing needs resampling.
pub proof fn law_supported_rate_is_used(
    rate: u32,
    ranges: Seq<FormatRange>,
    own: Option<StreamFormat>,
    r: StreamFormat,
    k: int,
)
    requires
        input_format(rate, Some(ranges), own, r),
        0 <= k < ranges.len(),
        includes(ranges, rate, k),
    ensures
        r.sample_rate == rate,
    decreases k,
{
    let all = Some(ranges);
    let fits = |i: int|
        all matches Some(s) && 0 <= i < s.len() && includes(s, rate, i) && forall|j: int|
            0 <= j < i ==> !#[trigger] includes(s, rate, j);
    if forall|j: int| 0 <= j < k ==> !#[trigger] includes(ranges, rate, j) {
        assert(fits(k));
    } else {
        let j = choose|j: int| 0 <= j < k && #[trigger] includes(ranges, rate, j);
        law_supported_rate_is_used(rate, ranges, own, r, j);
    }
}

/// A device's name as it is shown.
pub open spec fn shown(name: Option<String>) -> Seq<char> {
    match name {
        Some(n) => n@,
        None => "<unknown>"@,
    }
}

/// A device's name as it is shown.
pub fn shown_name(name: &Option<String>) -> (r: String)
    ensures
        r@ == shown(*name),
{
    match name {
        Some(n) => n.clone(),
        None => "<unknown>".to_owned(),
    }
}

/// A line about an open device.
pub open spec fn format_text(label: Seq<char>, name: Seq<char>, f: StreamFormat) -> Seq<char> {
    label + name + " — "@ + decimal_of(f.sample_rate as nat) + " Hz, "@ + decimal_of(
        f.channels as nat,
    ) + "ch"@
}

/// A line about an open device.
pub fn format_line(label: &str, name: &str, f: StreamFormat) -> (r: String)
    ensures
        r@ == format_text(label@, name@, f),
{
    let mut r: String = glue3(label, name, " — ");
    r.append(decimal(f.sample_rate).as_str());
    r.append(" Hz, ");
    r.append(decimal(f.channels as u32).as_str());
    r.append("ch");
    r
}

/// The warning about rates that differ.
pub open spec fn mismatch_text(in_rate: u32, out_rate: u32, effect: Seq<char>) -> Seq<char> {
    "Warning: sample rate mismatch ("@ + decimal_of(in_rate as nat) + " Hz in vs "@ + decimal_of(
        out_rate as nat,
    ) + " Hz out). Resampling is not yet implemented — audio "@ + effect
}

/// What is said when both devices are open: a line for each, and a warning if their rates differ.
pub open spec fn opening_text(
    in_name: Option<String>,
    out_name: Option<String>,
    input: StreamFormat,
    output: StreamFormat,
    effect: Seq<char>,
) -> Seq<Seq<char>> {
    let lines = seq![
        format_text("Input:  "@, shown(in_name), input),
        format_text("Output: "@, shown(out_name), output),
    ];
    if input.sample_rate != output.sample_rate {
        lines.push(mismatch_text(input.sample_rate, output.sample_rate, effect))
    } else {
        lines
    }
}

/// What is said when both devices are open; `effect` is what a mismatch of rates does.
pub fn opening_lines(
    in_name: &Option<String>,
    out_name: &Option<String>,
    input: StreamFormat,
    output: StreamFormat,
    effect: &str,
) -> (r: Vec<String>)
    ensures
        texts(r@) == opening_text(*in_name, *out_name, input, output, effect@),
{
    let mut r: Vec<String> = two_texts(
        format_line("Input:  ", shown_name(in_name).as_str(), input),
        format_line("Output: ", shown_name(out_name).as_str(), output),
    );
    if input.sample_rate != output.sample_rate {
        let mut w: String = glue3(
            "Warning: sample rate mismatch (",
            decimal(input.sample_rate).as_str(),
            " Hz in vs ",
        );
        w.append(decimal(output.sample_rate).as_str());
        w.append(" Hz out). Resampling is not yet implemented — audio ");
        w.append(effect);
        proof {
            lemma_texts_push(r@, w);
        }
        r.push(w);
    }
    r
}

/// What a mismatch of rates does to a plain session.
pub fn passthrough_effect() -> (r: &'static str)
    ensures
        r@ == "will be pitched wrong."@,
{
    "will be pitched wrong."
}

/// What a mismatch of rates does to an engine session.
pub fn engine_effect() -> (r: &'static str)
    ensures
        r@ == "may sound wrong."@,
{
    "may sound wrong."
}

/// What to do about the monitor.
pub struct MonitorPlan {
    /// The output device to open for it.
    pub device: Option<usize>,
    /// What to warn the user of.
    pub warning: Option<String>,
}

/// The plan opens the first output device that answers to the monitor's name, whether the monitor
/// is on or not, so that it can be switched on later without opening devices anew. A name that no
/// device answers to is worth a warning if the monitor is on.
pub open spec fn is_monitor_plan(
    enabled: bool,
    wanted: Option<&str>,
    listed: Option<Vec<Option<String>>>,
    plan: MonitorPlan,
) -> bool {
    match plan.device {
        Some(i) => {
            &&& wanted matches Some(name)
            &&& listed matches Some(names)
            &&& i < names@.len()
            &&& answers_to(names@, name@, i as int)
            &&& forall|j: int| 0 <= j < i ==> !#[trigger] answers_to(names@, name@, j)
            &&& plan.warning is None
        },
        None => {
            &&& wanted matches Some(name) ==> (listed matches Some(names) ==> forall|j: int|
                0 <= j < names@.len() ==> !#[trigger] answers_to(names@, name@, j))
            &&& if enabled && wanted is Some {
                plan.warning matches Some(w) && w@
                    == "Warning: monitor device not found, monitoring disabled."@
            } else {
                plan.warning is None
            }
        },
    }
}

/// Decides about the monitor.
pub fn plan_monitor(
    enabled: bool,
    wanted: Option<&str>,
    listed: &Option<Vec<Option<String>>>,
) -> (r: MonitorPlan)
    ensures
        is_monitor_plan(enabled, wanted, *listed, r),
        r.device is Some <==> wanted is Some && (*listed matches Some(names) && exists|j: int|
            0 <= j < names@.len() && #[trigger] answers_to(names@, wanted->0@, j)),
{
    match wanted {
        None => MonitorPlan { device: None, warning: None },
        Some(name) => {
            let found: Option<usize> = match listed {
                Some(names) => find_device(names, name),
                None => None,
            };
            match found {
                Some(i) => MonitorPlan { device: Some(i), warning: None },
                None => MonitorPlan {
                    device: None,
                    warning: if enabled {
                        Some("Warning: monitor device not found, monitoring disabled.".to_owned())
                    } else {
                        None
                    },
                },
            }
        },
    }
}

/// Whether the monitor is on does not decide which device is opened for it.
pub proof fn law_monitor_device_is_opened_either_way(
    wanted: Option<&str>,
    listed: Option<Vec<Option<String>>>,
    on: MonitorPlan,
    off: MonitorPlan,
)
    requires
        is_monitor_plan(true, wanted, listed, on),
        is_monitor_plan(false, wanted, listed, off),
    ensures
        on.device == off.device,
{
    if let (Some(i), Some(j)) = (on.device, off.device) {
        let names = listed->0;
        let name = wanted->0;
        assert(answers_to(names@, name@, i as int));
        assert(answers_to(names@, name@, j as int));
        assert(i == j) by {
            if i < j {
                assert(!answers_to(names@, name@, i as int));
            } else if j < i {
                assert(!answers_to(names@, name@, j as int));
            }
        }
    }
}

/// The format to open the monitor with. A monitor that is on and has no format is an error; one
/// that is off, and has none or one without channels or rate, is done without.
pub fn monitor_format(enabled: bool, offered: Result<StreamFormat, String>) -> (r: Result<
    Option<StreamFormat>,
    DeviceError,
>)
    ensures
        match offered {
            Ok(f) => r == Ok::<Option<StreamFormat>, DeviceError>(
                if enabled || (f.channels > 0 && f.sample_rate > 0) {
                    Some(f)
                } else {
                    None
                },
            ),
            Err(e) => if enabled {
                &&& r matches Err(DeviceError::StreamBuildFailed(msg))
                &&& msg@ == "monitor config: "@ + e@
            } else {
                r == Ok::<Option<StreamFormat>, DeviceError>(None)
            },
        },
{
    match offered {
        Ok(f) => {
            if enabled || (f.channels > 0 && f.sample_rate > 0) {
                Ok(Some(f))
            } else {
                Ok(None)
            }
        },
        Err(e) => {
            if enabled {
                Err(monitor_failure(e.as_str()))
            } else {
                Ok(None)
            }
        },
    }
}

/// The error for a stream that could not be built.
pub fn build_failure(side: Side, e: &str) -> (r: DeviceError)
    ensures
        r matches DeviceError::StreamBuildFailed(msg) && msg@ == "failed to build "@ + side_text(
            side,
        ) + " stream: "@ + e@,
{
    let mut msg: String = glue3("failed to build ", side_name(side), " stream: ");
    msg.append(e);
    DeviceError::StreamBuildFailed(msg)
}

/// The error for a stream that could not be started.
pub fn play_failure(side: Side, e: &str) -> (r: DeviceError)
    ensures
        r matches DeviceError::StreamBuildFailed(msg) && msg@ == "failed to start "@ + side_text(
            side,
        ) + " stream: "@ + e@,
{
    let mut msg: String = glue3("failed to start ", side_name(side), " stream: ");
    msg.append(e);
    DeviceError::StreamBuildFailed(msg)
}

/// The error for a monitor whose format cannot be had.
pub fn monitor_failure(e: &str) -> (r: DeviceError)
    ensures
        r matches DeviceError::StreamBuildFailed(msg) && msg@ == "monitor config: "@ + e@,
{
    DeviceError::StreamBuildFailed(glue("monitor config: ", e))
}

/// The names of the devices that have one.
pub open spec fn known(names: Seq<Option<String>>) -> Seq<String>
    decreases names.len(),
{
    if names.len() == 0 {
        Seq::empty()
    } else {
        match names.last() {
            Some(n) => known(names.drop_last()).push(n),
            None => known(names.drop_last()),
        }
    }
}

/// The names of the devices that have one; none if the devices could not be listed.
pub fn device_names(listed: &Option<Vec<Option<String>>>) -> (r: Vec<String>)
    ensures
        r@ == match *listed {
            Some(names) => known(names@),
            None => Seq::<String>::empty(),
        },
{
    let mut r: Vec<String> = Vec::new();
    if let Some(names) = listed {
        let mut i: usize = 0;
        while i < names.len()
            invariant
                i <= names@.len(),
                r@ == known(names@.take(i as int)),
            decreases names@.len() - i,
        {
            proof {
                assert(names@.take(i + 1).drop_last() =~= names@.take(i as int));
            }
            if let Some(n) = &names[i] {
                r.push(n.clone());
            }
            i = i + 1;
        }
        assert(names@.take(i as int) =~= names@);
    }
    r
}

/// The streams of a session.
#[derive(Clone, Copy, Debug, PartialEq, Eq, Structural)]
pub enum StreamKind {
    Input,
    Output,
    Monitor,
}

/// What a stream that failed reports.
pub fn stream_error(kind: StreamKind, e: &str) -> (r: String)
    ensures
        r@ == match kind {
            StreamKind::Input => "input: "@,
            StreamKind::Output => "output: "@,
            StreamKind::Monitor => "monitor: "@,
        } + e@,
{
    match kind {
        StreamKind::Input => glue("input: ", e),
        StreamKind::Output => glue("output: ", e),
        StreamKind::Monitor => glue("monitor: ", e),
    }
}

/// The warning about a monitor stream that could not be built; the session goes on without it.
pub fn monitor_warning(e: &str) -> (r: String)
    ensures
        r@ == "Warning: could not build monitor stream: "@ + e@,
{
    glue("Warning: could not build monitor stream: ", e)
}

} // verus!
