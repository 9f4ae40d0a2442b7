//! The list of devices, as text.
use vstd::prelude::*;

use super::devices::{shown, shown_name, side_name, side_text, Side};
use crate::text::{decimal, decimal_of, glue, glue3, lemma_texts_push, no_texts, texts};

verus! {

/// Formats that a device supports, as they are listed.
pub struct ConfigRange {
    pub channels: u16,
    pub min_hz: u32,
    pub max_hz: u32,
    /// The name of the sample format.
    pub format: String,
}

/// A device, as it is listed.
pub struct ListedDevice {
    pub name: Option<String>,
    /// What it supports, or why that cannot be had.
    pub configs: Result<Vec<ConfigRange>, String>,
}

/// A range of rates; one rate if both ends are the same.
pub open spec fn rate_text(min_hz: u32, max_hz: u32) -> Seq<char> {
    if min_hz == max_hz {
        decimal_of(min_hz as nat) + " Hz"@
    } else {
        decimal_of(min_hz as nat) + "–"@ + decimal_of(max_hz as nat) + " Hz"@
    }
}

/// A number of channels.
pub open spec fn channels_text(channels: u16) -> Seq<char> {
    if channels == 1 {
        "mono"@
    } else if channels == 2 {
        "stereo"@
    } else {
        decimal_of(channels as nat) + "ch"@
    }
}

/// The line for one range of formats.
pub open spec fn config_text(c: ConfigRange) -> Seq<char> {
    "    "@ + rate_text(c.min_hz, c.max_hz) + ", "@ + channels_text(c.channels) + ", "@ + c.format@
}

/// The line for one range of formats.
pub fn config_line(c: &ConfigRange) -> (r: String)
    ensures
        r@ == config_text(*c),
{
    let rate: String = if c.min_hz == c.max_hz {
        glue(decimal(c.min_hz).as_str(), " Hz")
    } else {
        let mut s: String = glue3(decimal(c.min_hz).as_str(), "–", decimal(c.max_hz).as_str());
        s.append(" Hz");
        s
    };
    let channels: String = if c.channels == 1 {
        "mono".to_owned()
    } else if c.channels == 2 {
        "stereo".to_owned()
    } else {
        glue(decimal(c.channels as u32).as_str(), "ch")
    };
    let mut r: String = glue3("    ", rate.as_str(), ", ");
    r.append(channels.as_str());
    r.append(", ");
    r.append(c.format.as_str());
    r
}

/// The lines for what a device supports.
pub open spec fn configs_text(configs: Result<Vec<ConfigRange>, String>) -> Seq<Seq<char>> {
    match configs {
        Ok(ranges) => ranges@.map_values(|c: ConfigRange| config_text(c)),
        Err(e) => seq!["    (could not query configs: "@ + e@ + ")"@],
    }
}

/// The lines for a device: its name, marked if it is the default one, and what it supports.
pub open spec fn device_text(d: ListedDevice, default_name: Seq<char>) -> Seq<Seq<char>> {
    let marker = if shown(d.name) == default_name {
        " (default)"@
    } else {
        ""@
    };
    seq!["  "@ + shown(d.name) + marker] + configs_text(d.configs)
}

/// The lines for the first `n` devices.
pub open spec fn devices_text(devices: Seq<ListedDevice>, default_name: Seq<char>, n: nat) -> Seq<
    Seq<char>,
>
    decreases n,
{
    if n == 0 {
        Seq::empty()
    } else {
        devices_text(devices, default_name, (n - 1) as nat) + device_text(
            devices[n - 1],
            default_name,
        )
    }
}

/// The lines for all devices of a side; the default's name is empty if there is no default.
pub open spec fn side_listing(
    side: Side,
    default_name: Seq<char>,
    devices: Result<Vec<ListedDevice>, String>,
) -> Seq<Seq<char>> {
    let head = match side {
        Side::Input => "Input devices:"@,
        Side::Output => "Output devices:"@,
    };
    seq![head] + match devices {
        Err(e) => seq!["  error listing "@ + side_text(side) + " devices: "@ + e@],
        Ok(list) => if list@.len() == 0 {
            seq!["  none found"@]
        } else {
            devices_text(list@, default_name, list@.len())
        },
    }
}

fn push_device(lines: &mut Vec<String>, d: &ListedDevice, default_name: &String)
    ensures
        texts(final(lines)@) == texts(old(lines)@) + device_text(*d, default_name@),
{
    let ghost start = texts(lines@);
    let name: String = shown_name(&d.name);
    let marker: &str = if name == *default_name {
        " (default)"
    } else {
        ""
    };
    let title: String = glue3("  ", name.as_str(), marker);
    let ghost head = seq![title@];
    proof {
        lemma_texts_push(lines@, title);
        assert(start.push(title@) =~= start + head);
    }
    lines.push(title);
    match &d.configs {
        Err(e) => {
            let line: String = glue3("    (could not query configs: ", e.as_str(), ")");
            proof {
                lemma_texts_push(lines@, line);
                assert((start + head).push(line@) =~= start + (head + configs_text(d.configs)));
            }
            lines.push(line);
        },
        Ok(ranges) => {
            let ghost all = ranges@.map_values(|c: ConfigRange| config_text(c));
            let mut i: usize = 0;
            assert(start + head + all.take(0) =~= start + head);
            while i < ranges.len()
                invariant
                    all == ranges@.map_values(|c: ConfigRange| config_text(c)),
                    i <= ranges@.len(),
                    texts(lines@) == start + head + all.take(i as int),
                decreases ranges@.len() - i,
            {
                let line: String = config_line(&ranges[i]);
                proof {
                    lemma_texts_push(lines@, line);
                    assert((start + head + all.take(i as int)).push(line@) =~= start + head
                        + all.take(i + 1));
                }
                lines.push(line);
                i = i + 1;
            }
            proof {
                assert(all.take(i as int) =~= all);
                assert(start + head + all =~= start + (head + all));
            }
        },
    }
}

fn push_side(
    lines: &mut Vec<String>,
    side: Side,
    default_name: &String,
    devices: &Result<Vec<ListedDevice>, String>,
)
    ensures
        texts(final(lines)@) == texts(old(lines)@) + side_listing(side, default_name@, *devices),
{
    let ghost start = texts(lines@);
    let head: String = match side {
        Side::Input => "Input devices:".to_owned(),
        Side::Output => "Output devices:".to_owned(),
    };
    let ghost top = seq![head@];
    proof {
        lemma_texts_push(lines@, head);
        assert(start.push(head@) =~= start + top);
    }
    lines.push(head);
    match devices {
        Err(e) => {
            let mut line: String = glue3("  error listing ", side_name(side), " devices: ");
            line.append(e.as_str());
            proof {
                lemma_texts_push(lines@, line);
                assert((start + top).push(line@) =~= start + side_listing(
                    side,
                    default_name@,
                    *devices,
                ));
            }
            lines.push(line);
        },
        Ok(list) => {
            if list.len() == 0 {
                let line: String = "  none found".to_owned();
                proof {
                    lemma_texts_push(lines@, line);
                    assert((start + top).push(line@) =~= start + side_listing(
                        side,
                        default_name@,
                        *devices,
                    ));
                }
                lines.push(line);
                return ;
            }
            let mut i: usize = 0;
            assert(start + top + devices_text(list@, default_name@, 0) =~= start + top);
            while i < list.len()
                invariant
                    i <= list@.len(),
                    texts(lines@) == start + top + devices_text(list@, default_name@, i as nat),
                decreases list@.len() - i,
            {
                push_device(lines, &list[i], default_name);
                i = i + 1;
                assert(texts(lines@) =~= start + top + devices_text(
                    list@,
                    default_name@,
                    i as nat,
                ));
            }
            assert(texts(lines@) =~= start + side_listing(side, default_name@, *devices));
        },
    }
}

/// The text of an optional name; empty if there is none.
pub open spec fn or_empty(name: Option<String>) -> Seq<char> {
    match name {
        Some(n) => n@,
        None => Seq::empty(),
    }
}

/// The text of an optional name; empty if there is none.
pub fn name_or_empty(name: &Option<String>) -> (r: String)
    ensures
        r@ == or_empty(*name),
{
    match name {
        Some(n) => n.clone(),
        None => String::new(),
    }
}

/// Lists all devices: the inputs, an empty line, the outputs, each with what it supports.
pub fn list_devices(
    default_input: &Option<String>,
    inputs: &Result<Vec<ListedDevice>, String>,
    default_output: &Option<String>,
    outputs: &Result<Vec<ListedDevice>, String>,
) -> (r: Vec<String>)
    ensures
        texts(r@) == side_listing(Side::Input, or_empty(*default_input), *inputs) + seq![
            Seq::<char>::empty(),
        ] + side_listing(Side::Output, or_empty(*default_output), *outputs),
{
    let mut lines: Vec<String> = no_texts();
    push_side(&mut lines, Side::Input, &name_or_empty(default_input), inputs);
    let ghost top = side_listing(Side::Input, or_empty(*default_input), *inputs);
    assert(texts(lines@) =~= top);
    let blank: String = String::new();
    proof {
        lemma_texts_push(lines@, blank);
        assert(top.push(blank@) =~= top + seq![Seq::<char>::empty()]);
    }
    lines.push(blank);
    push_side(&mut lines, Side::Output, &name_or_empty(default_output), outputs);
    lines
}

} // verus!
