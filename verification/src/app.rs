//! The window's decisions: which devices are selected, what the meter shows, and what is to be
//! done about what the user does.
use vstd::prelude::*;

use crate::audio::engine::AudioCmd;
use crate::controls::{Control, Switch};
use crate::numbers::{
    MINUS_INF_DB, MINUS_INF_LABEL_DB, MINUS_SIX, MINUS_SIXTY, MINUS_THREE, TWENTIETH,
};
use crate::numeric::lemma_at_most;
use crate::single::Single;
use crate::state::Settings;
use crate::text::glue;

verus! {

/// What the window shows.
pub struct MicApp {
    pub input_devices: Vec<String>,
    pub output_devices: Vec<String>,
    pub selected_input: String,
    pub selected_output: String,
    pub selected_monitor: String,
    pub settings: Settings,
    /// Decayed display value for the peak meter (dBFS).
    pub displayed_peak_db: Single,
    pub status_message: String,
}

/// What an engine is started with.
pub struct EngineStart {
    pub input: Option<String>,
    pub output: Option<String>,
    pub settings: Settings,
    pub monitor: Option<String>,
    pub monitor_enabled: bool,
}

/// What the user did, or what came of what the window asked for.
pub enum GuiEvent {
    PickInput(String),
    PickOutput(String),
    PickMonitor(String),
    /// Hear yourself, or not.
    SetMonitor(bool),
    /// A slider was moved.
    Move(Control, Single),
    /// A switch was turned.
    Turn(Switch, bool),
    /// A preset was read from a file, or could not be.
    Loaded { path: String, preset: Result<Settings, String> },
    /// A preset was written to a file, or could not be.
    Saved { path: String, outcome: Result<(), String> },
    /// The configuration was written, or could not be.
    Stored(Result<(), String>),
}

/// What is to be done.
pub enum GuiAction {
    /// Tell the engine.
    Command(AudioCmd),
    /// Switch the monitor on or off without opening devices anew.
    Monitor(bool),
    /// Write the configuration.
    Store(Settings),
}

/// The list holds the name.
pub open spec fn holds(devices: Seq<String>, name: Seq<char>) -> bool {
    exists|i: int| 0 <= i < devices.len() && (#[trigger] devices[i])@ == name
}

/// The device that is selected at the start: the one last used if it is still there, else the
/// first, else none.
pub open spec fn restored(saved: Option<String>, devices: Seq<String>) -> Seq<char> {
    if saved matches Some(n) && holds(devices, n@) {
        saved->0@
    } else if devices.len() > 0 {
        devices[0]@
    } else {
        Seq::empty()
    }
}

/// Whether a list holds a name.
pub fn list_holds(devices: &Vec<String>, name: &String) -> (r: bool)
    ensures
        r == holds(devices@, name@),
{
    let mut i: usize = 0;
    while i < devices.len()
        invariant
            i <= devices@.len(),
            forall|j: int| 0 <= j < i ==> (#[trigger] devices@[j])@ != name@,
        decreases devices@.len() - i,
    {
        if devices[i] == *name {
            return true;
        }
        i = i + 1;
    }
    false
}

/// The device that is selected at the start.
pub fn restore(saved: &Option<String>, devices: &Vec<String>) -> (r: String)
    ensures
        r@ == restored(*saved, devices@),
{
    if let Some(n) = saved {
        if list_holds(devices, n) {
            return n.clone();
        }
    }
    if devices.len() > 0 {
        devices[0].clone()
    } else {
        String::new()
    }
}

/// A selection as a device name; none if nothing is selected.
pub open spec fn is_named(selected: String, r: Option<String>) -> bool {
    r == if selected@.len() == 0 {
        None
    } else {
        Some(selected)
    }
}

/// A selection as a device name; none if nothing is selected.
pub fn named(selected: &String) -> (r: Option<String>)
    ensures
        is_named(*selected, r),
{
    if selected.as_str().unicode_len() == 0 {
        None
    } else {
        Some(selected.clone())
    }
}

/// The share of the meter that is filled: levels from -60 to 0 dBFS go from none to all.
pub open spec fn spec_fill_fraction(db: Single) -> Single {
    let low = Single::from_bits(MINUS_SIXTY);
    let x = db.minus(low).over(Single::zero().minus(low));
    if x.lt(Single::zero()) {
        Single::zero()
    } else if x.gt(Single::one()) {
        Single::one()
    } else {
        x
    }
}

/// The share of the meter that is filled: levels from -60 to 0 dBFS go from none to all.
#[verifier::when_used_as_spec(spec_fill_fraction)]
pub fn fill_fraction(db: Single) -> (r: Single)
    ensures
        r == spec_fill_fraction(db),
{
    let low: Single = Single::from_bits(MINUS_SIXTY);
    let x: Single = db.minus(low).over(Single::zero().minus(low));
    if x.lt(Single::zero()) {
        Single::zero()
    } else if x.gt(Single::one()) {
        Single::one()
    } else {
        x
    }
}

/// How the meter looks.
#[derive(Clone, Copy, Debug)]
pub struct PeakBar {
    /// The share that is filled.
    pub fraction: Single,
    /// Red, green and blue of the filled part.
    pub colour: (u8, u8, u8),
    /// The level to write on it; none for silence.
    pub label: Option<Single>,
}

/// How the meter looks at a level: red near 0 dBFS, yellow as a caution, else green.
pub open spec fn spec_peak_bar(db: Single) -> PeakBar {
    PeakBar {
        fraction: fill_fraction(db),
        colour: if db.gt(Single::from_bits(MINUS_THREE)) {
            (220, 50, 50)
        } else if db.gt(Single::from_bits(MINUS_SIX)) {
            (220, 180, 40)
        } else {
            (60, 180, 80)
        },
        label: if db.le(Single::from_bits(MINUS_INF_LABEL_DB)) {
            None
        } else {
            Some(db)
        },
    }
}

/// How the meter looks at a level: red near 0 dBFS, yellow as a caution, else green.
#[verifier::when_used_as_spec(spec_peak_bar)]
pub fn peak_bar(db: Single) -> (r: PeakBar)
    ensures
        r == spec_peak_bar(db),
{
    let colour: (u8, u8, u8) = if db.gt(Single::from_bits(MINUS_THREE)) {
        (220, 50, 50)
    } else if db.gt(Single::from_bits(MINUS_SIX)) {
        (220, 180, 40)
    } else {
        (60, 180, 80)
    };
    let label: Option<Single> = if db.le(Single::from_bits(MINUS_INF_LABEL_DB)) {
        None
    } else {
        Some(db)
    };
    PeakBar { fraction: fill_fraction(db), colour, label }
}

/// What the meter shows after one frame: up at once, down by a twentieth of the way to silence.
pub open spec fn spec_shown_peak(shown: Single, raw: Single) -> Single {
    if raw.gt(shown) {
        raw
    } else {
        shown.plus(Single::from_bits(MINUS_INF_DB).minus(shown).times(Single::from_bits(TWENTIETH)))
    }
}

/// What the meter shows after one frame: up at once, down by a twentieth of the way to silence.
#[verifier::when_used_as_spec(spec_shown_peak)]
pub fn shown_peak(shown: Single, raw: Single) -> (r: Single)
    ensures
        r == spec_shown_peak(shown, raw),
{
    if raw.gt(shown) {
        raw
    } else {
        shown.plus(Single::from_bits(MINUS_INF_DB).minus(shown).times(Single::from_bits(TWENTIETH)))
    }
}

impl MicApp {
    /// The command that opens the selected devices, the monitor's too, whether it is on or not.
    pub open spec fn device_command(self, cmd: AudioCmd) -> bool {
        cmd == AudioCmd::ChangeDevices {
            input_name: Some(self.selected_input),
            output_name: Some(self.selected_output),
            monitor_name: Some(self.selected_monitor),
            monitor_enabled: self.settings.monitor_enabled,
        }
    }

    /// The window with its selection noted in the settings, for the next start.
    pub open spec fn noted(self, later: MicApp) -> bool {
        &&& is_named(self.selected_input, later.settings.input_device)
        &&& is_named(self.selected_output, later.settings.output_device)
        &&& is_named(self.selected_monitor, later.settings.monitor_device)
        &&& later.settings == (Settings {
            input_device: later.settings.input_device,
            output_device: later.settings.output_device,
            monitor_device: later.settings.monitor_device,
            ..self.settings
        })
        &&& later == (MicApp { settings: later.settings, ..self })
    }

    /// The window as it opens: the last used devices where they are still there, and the loaded
    /// settings or the default ones.
    pub fn new(
        input_devices: Vec<String>,
        output_devices: Vec<String>,
        loaded: Option<Settings>,
    ) -> (r: MicApp)
        ensures
            match loaded {
                Some(s) => r.settings == s,
                None => r.settings.is_default(),
            },
            r.input_devices == input_devices,
            r.output_devices == output_devices,
            r.selected_input@ == restored(r.settings.input_device, input_devices@),
            r.selected_output@ == restored(r.settings.output_device, output_devices@),
            r.selected_monitor@ == restored(r.settings.monitor_device, output_devices@),
            r.displayed_peak_db == Single::from_bits(MINUS_INF_DB),
            r.status_message@ == Seq::<char>::empty(),
    {
        let settings: Settings = match loaded {
            Some(s) => s,
            None => Settings::default(),
        };
        let selected_input: String = restore(&settings.input_device, &input_devices);
        let selected_output: String = restore(&settings.output_device, &output_devices);
        let selected_monitor: String = restore(&settings.monitor_device, &output_devices);
        MicApp {
            input_devices,
            output_devices,
            selected_input,
            selected_output,
            selected_monitor,
            settings,
            displayed_peak_db: Single::from_bits(MINUS_INF_DB),
            status_message: String::new(),
        }
    }

    /// What the engine is started with: the selected devices, the monitor's too, whether it is on
    /// or not.
    pub fn engine_start(&self) -> (r: EngineStart)
        ensures
            is_named(self.selected_input, r.input),
            is_named(self.selected_output, r.output),
            r.settings == self.settings,
            is_named(self.selected_monitor, r.monitor),
            r.monitor_enabled == self.settings.monitor_enabled,
    {
        EngineStart {
            input: named(&self.selected_input),
            output: named(&self.selected_output),
            settings: self.settings.clone(),
            monitor: named(&self.selected_monitor),
            monitor_enabled: self.settings.monitor_enabled,
        }
    }

    /// Shows a peak level.
    pub fn show_peak(&mut self, raw: Single)
        ensures
            *final(self) == (MicApp {
                displayed_peak_db: shown_peak(old(self).displayed_peak_db, raw),
                ..*old(self)
            }),
    {
        self.displayed_peak_db = shown_peak(self.displayed_peak_db, raw);
    }

    /// Notes the selection in the settings, for the next start.
    pub fn save_config(&mut self) -> (r: Settings)
        ensures
            old(self).noted(*final(self)),
            r == final(self).settings,
    {
        self.settings.input_device = named(&self.selected_input);
        self.settings.output_device = named(&self.selected_output);
        self.settings.monitor_device = named(&self.selected_monitor);
        self.settings.clone()
    }

    fn change_devices(&self) -> (r: AudioCmd)
        ensures
            self.device_command(r),
    {
        AudioCmd::ChangeDevices {
            input_name: Some(self.selected_input.clone()),
            output_name: Some(self.selected_output.clone()),
            monitor_name: Some(self.selected_monitor.clone()),
            monitor_enabled: self.settings.monitor_enabled,
        }
    }

    /// After a new selection: the engine opens the devices that are now selected, and the
    /// configuration is written.
    pub open spec fn reopens(self, after: MicApp, actions: Seq<GuiAction>) -> bool {
        &&& self.noted(after)
        &&& actions.len() == 2
        &&& actions[0] matches GuiAction::Command(cmd) && self.device_command(cmd)
        &&& actions[1] == GuiAction::Store(after.settings)
    }

    fn reopen(&mut self) -> (r: Vec<GuiAction>)
        ensures
            old(self).reopens(*final(self), r@),
    {
        let mut r: Vec<GuiAction> = Vec::new();
        r.push(GuiAction::Command(self.change_devices()));
        let s: Settings = self.save_config();
        r.push(GuiAction::Store(s));
        r
    }

    /// How the window answers an event: the window as it is `after`, and what is to be done. An
    /// event that does not change anything asks for nothing.
    pub open spec fn answers(self, event: GuiEvent, after: MicApp, actions: Seq<GuiAction>) -> bool {
        match event {
            GuiEvent::PickInput(name) => if name@ == self.selected_input@ {
                after == self && actions.len() == 0
            } else {
                (MicApp { selected_input: name, ..self }).reopens(after, actions)
            },
            GuiEvent::PickOutput(name) => if name@ == self.selected_output@ {
                after == self && actions.len() == 0
            } else {
                (MicApp { selected_output: name, ..self }).reopens(after, actions)
            },
            GuiEvent::PickMonitor(name) => if name@ == self.selected_monitor@ {
                after == self && actions.len() == 0
            } else {
                (MicApp { selected_monitor: name, ..self }).reopens(after, actions)
            },
            // switched without opening devices anew
            GuiEvent::SetMonitor(on) => if on == self.settings.monitor_enabled {
                after == self && actions.len() == 0
            } else {
                let turned = MicApp {
                    settings: Settings { monitor_enabled: on, ..self.settings },
                    ..self
                };
                &&& turned.noted(after)
                &&& actions == seq![GuiAction::Monitor(on), GuiAction::Store(after.settings)]
            },
            // the engine and the configuration hear of it at the end of the frame
            GuiEvent::Move(c, value) => {
                &&& after == (MicApp { settings: after.settings, ..self })
                &&& actions.len() == 0
                &&& if c.is_there() {
                    &&& after.settings.number(c) == value
                    &&& forall|d: Control|
                        d.is_there() && d != c ==> #[trigger] after.settings.number(d)
                            == self.settings.number(d)
                    &&& forall|w: Switch|
                        #[trigger] after.settings.flag(w) == self.settings.flag(w)
                    &&& after.settings.same_devices(self.settings)
                } else {
                    after.settings == self.settings
                }
            },
            GuiEvent::Turn(w, on) => {
                &&& after == (MicApp { settings: after.settings, ..self })
                &&& actions.len() == 0
                &&& after.settings.flag(w) == on
                &&& forall|v: Switch|
                    v != w ==> #[trigger] after.settings.flag(v) == self.settings.flag(v)
                &&& forall|c: Control|
                    #[trigger] after.settings.number(c) == self.settings.number(c)
                &&& after.settings.same_devices(self.settings)
            },
            GuiEvent::Loaded { path, preset } => {
                &&& actions.len() == 0
                &&& after == (MicApp {
                    settings: after.settings,
                    status_message: after.status_message,
                    ..self
                })
                &&& match preset {
                    Ok(s) => after.settings == s && after.status_message@ == "Loaded: "@ + path@,
                    Err(e) => after.settings == self.settings && after.status_message@
                        == "Load error: "@ + e@,
                }
            },
            GuiEvent::Saved { path, outcome } => {
                &&& actions.len() == 0
                &&& after == (MicApp { status_message: after.status_message, ..self })
                &&& after.status_message@ == match outcome {
                    Ok(_) => "Saved: "@ + path@,
                    Err(e) => "Save error: "@ + e@,
                }
            },
            GuiEvent::Stored(outcome) => {
                &&& actions.len() == 0
                &&& match outcome {
                    Ok(_) => after == self,
                    Err(e) => after == (MicApp { status_message: after.status_message, ..self })
                        && after.status_message@ == "Config save error: "@ + e@,
                }
            },
        }
    }

    /// Answers an event.
    pub fn handle(&mut self, event: GuiEvent) -> (r: Vec<GuiAction>)
        ensures
            old(self).answers(event, *final(self), r@),
    {
        match event {
            GuiEvent::PickInput(name) => {
                if name == self.selected_input {
                    return Vec::new();
                }
                self.selected_input = name;
                self.reopen()
            },
            GuiEvent::PickOutput(name) => {
                if name == self.selected_output {
                    return Vec::new();
                }
                self.selected_output = name;
                self.reopen()
            },
            GuiEvent::PickMonitor(name) => {
                if name == self.selected_monitor {
                    return Vec::new();
                }
                self.selected_monitor = name;
                self.reopen()
            },
            GuiEvent::SetMonitor(on) => {
                if on == self.settings.monitor_enabled {
                    return Vec::new();
                }
                self.settings.monitor_enabled = on;
                let s: Settings = self.save_config();
                let mut r: Vec<GuiAction> = Vec::new();
                r.push(GuiAction::Monitor(on));
                r.push(GuiAction::Store(s));
                assert(r@ =~= seq![GuiAction::Monitor(on), GuiAction::Store(s)]);
                r
            },
            GuiEvent::Move(c, value) => {
                if c.is_there() {
                    self.settings.set_number(c, value);
                }
                Vec::new()
            },
            GuiEvent::Turn(w, on) => {
                self.settings.set_flag(w, on);
                Vec::new()
            },
            GuiEvent::Loaded { path, preset } => {
                match preset {
                    Ok(s) => {
                        self.settings = s;
                        self.status_message = glue("Loaded: ", path.as_str());
                    },
                    Err(e) => {
                        self.status_message = glue("Load error: ", e.as_str());
                    },
                }
                Vec::new()
            },
            GuiEvent::Saved { path, outcome } => {
                self.status_message = match outcome {
                    Ok(_) => glue("Saved: ", path.as_str()),
                    Err(e) => glue("Save error: ", e.as_str()),
                };
                Vec::new()
            },
            GuiEvent::Stored(outcome) => {
                if let Err(e) = outcome {
                    self.status_message = glue("Config save error: ", e.as_str());
                }
                Vec::new()
            },
        }
    }

    /// Whether an event changes settings that the engine has to hear of.
    pub open spec fn spec_is_edit(event: &GuiEvent) -> bool {
        match *event {
            GuiEvent::Move(_, _) => true,
            GuiEvent::Turn(_, _) => true,
            GuiEvent::Loaded { preset, .. } => preset is Ok,
            _ => false,
        }
    }

    /// Whether an event changes settings that the engine has to hear of.
    #[verifier::when_used_as_spec(spec_is_edit)]
    pub fn is_edit(event: &GuiEvent) -> (r: bool)
        ensures
            r == MicApp::spec_is_edit(event),
    {
        match event {
            GuiEvent::Move(_, _) => true,
            GuiEvent::Turn(_, _) => true,
            GuiEvent::Loaded { preset, .. } => preset.is_ok(),
            _ => false,
        }
    }

    /// Answers an event of a frame, and notes in `changed` whether the engine has to hear of it at
    /// the frame's end.
    pub fn take_event(&mut self, changed: &mut bool, event: GuiEvent) -> (r: Vec<GuiAction>)
        ensures
            old(self).answers(event, *final(self), r@),
            *final(changed) == (*old(changed) || MicApp::is_edit(&event)),
    {
        if MicApp::is_edit(&event) {
            *changed = true;
        }
        self.handle(event)
    }

    /// How a frame ends: if settings changed in it, the engine takes them on, and the configuration
    /// is written.
    pub open spec fn closes(self, changed: bool, after: MicApp, actions: Seq<GuiAction>) -> bool {
        if changed {
            &&& self.noted(after)
            &&& actions.len() == 2
            &&& actions[0] matches GuiAction::Command(AudioCmd::UpdateSettings(s)) && *s
                == self.settings
            &&& actions[1] == GuiAction::Store(after.settings)
        } else {
            after == self && actions.len() == 0
        }
    }

    /// Ends a frame.
    pub fn end_frame(&mut self, changed: bool) -> (r: Vec<GuiAction>)
        ensures
            old(self).closes(changed, *final(self), r@),
    {
        let mut r: Vec<GuiAction> = Vec::new();
        if changed {
            r.push(GuiAction::Command(AudioCmd::UpdateSettings(Box::new(self.settings.clone()))));
            let s: Settings = self.save_config();
            r.push(GuiAction::Store(s));
        }
        r
    }
}

/// The window answered the events in turn: `states` are what it was before the first, between them
/// and after the last, and `actions` what each asked for.
pub open spec fn ran(
    states: Seq<MicApp>,
    events: Seq<GuiEvent>,
    actions: Seq<Seq<GuiAction>>,
) -> bool {
    &&& states.len() == events.len() + 1
    &&& actions.len() == events.len()
    &&& forall|i: int|
        0 <= i < events.len() ==> #[trigger] states[i].answers(
            events[i],
            states[i + 1],
            actions[i],
        )
}

/// One of the events is an edit.
pub open spec fn edited(events: Seq<GuiEvent>) -> bool {
    exists|i: int| 0 <= i < events.len() && MicApp::is_edit(&#[trigger] events[i])
}

/// A device was picked, or the monitor switched.
pub open spec fn is_selection(event: GuiEvent) -> bool {
    event is PickInput || event is PickOutput || event is PickMonitor || event is SetMonitor
}

/// How often the engine is told to take on settings.
pub open spec fn updates(actions: Seq<GuiAction>) -> nat
    decreases actions.len(),
{
    if actions.len() == 0 {
        0
    } else {
        updates(actions.drop_last()) + if actions.last() matches GuiAction::Command(
            AudioCmd::UpdateSettings(_),
        ) {
            1nat
        } else {
            0nat
        }
    }
}

/// How often the configuration is written.
pub open spec fn stores(actions: Seq<GuiAction>) -> nat
    decreases actions.len(),
{
    if actions.len() == 0 {
        0
    } else {
        stores(actions.drop_last()) + if actions.last() is Store {
            1nat
        } else {
            0nat
        }
    }
}

/// All that the events of a frame ask for, in order.
pub open spec fn all_of(actions: Seq<Seq<GuiAction>>) -> Seq<GuiAction>
    decreases actions.len(),
{
    if actions.len() == 0 {
        Seq::empty()
    } else {
        all_of(actions.drop_last()) + actions.last()
    }
}

proof fn lemma_counts_add(a: Seq<GuiAction>, b: Seq<GuiAction>)
    ensures
        updates(a + b) == updates(a) + updates(b),
        stores(a + b) == stores(a) + stores(b),
    decreases b.len(),
{
    if b.len() == 0 {
        assert(a + b =~= a);
    } else {
        lemma_counts_add(a, b.drop_last());
        assert((a + b).drop_last() =~= a + b.drop_last());
    }
}

proof fn lemma_event_does_not_update(
    before: MicApp,
    event: GuiEvent,
    after: MicApp,
    actions: Seq<GuiAction>,
)
    requires
        before.answers(event, after, actions),
    ensures
        updates(actions) == 0,
        !is_selection(event) ==> stores(actions) == 0,
{
    reveal_with_fuel(updates, 3);
    reveal_with_fuel(stores, 3);
}

proof fn lemma_events_do_not_update(
    states: Seq<MicApp>,
    events: Seq<GuiEvent>,
    actions: Seq<Seq<GuiAction>>,
)
    requires
        ran(states, events, actions),
    ensures
        updates(all_of(actions)) == 0,
        (forall|i: int| 0 <= i < events.len() ==> !is_selection(#[trigger] events[i])) ==> stores(
            all_of(actions),
        ) == 0,
    decreases events.len(),
{
    if events.len() > 0 {
        let n: int = events.len() - 1;
        let s = states.drop_last();
        let e = events.drop_last();
        let a = actions.drop_last();
        assert forall|i: int| 0 <= i < e.len() implies #[trigger] s[i].answers(
            e[i],
            s[i + 1],
            a[i],
        ) by {
            assert(states[i].answers(events[i], states[i + 1], actions[i]));
        }
        lemma_events_do_not_update(s, e, a);
        assert(states[n].answers(events[n], states[n + 1], actions[n]));
        lemma_event_does_not_update(states[n], events[n], states[n + 1], actions[n]);
        lemma_counts_add(all_of(a), actions.last());
    }
}

/// A frame, with any number of events, tells the engine of the settings once if one of the events
/// is an edit, with all edits in, and not at all otherwise; and its end writes the configuration
/// once or not at all likewise. Without a new selection, that is all that the frame writes.
pub proof fn law_frame_updates_at_most_once(
    states: Seq<MicApp>,
    events: Seq<GuiEvent>,
    actions: Seq<Seq<GuiAction>>,
    after: MicApp,
    closing: Seq<GuiAction>,
)
    requires
        ran(states, events, actions),
        states.last().closes(edited(events), after, closing),
    ensures
        updates(all_of(actions) + closing) == if edited(events) {
            1nat
        } else {
            0nat
        },
        stores(closing) == updates(closing),
        edited(events) ==> (closing[0] matches GuiAction::Command(AudioCmd::UpdateSettings(s)) && *s
            == states.last().settings),
        (forall|i: int| 0 <= i < events.len() ==> !is_selection(#[trigger] events[i])) ==> stores(
            all_of(actions) + closing,
        ) == updates(all_of(actions) + closing),
{
    lemma_events_do_not_update(states, events, actions);
    lemma_counts_add(all_of(actions), closing);
    reveal_with_fuel(updates, 3);
    reveal_with_fuel(stores, 3);
}

/// Taking the events of a frame in turn notes whether one of them is an edit.
pub proof fn law_edits_are_noted(events: Seq<GuiEvent>, event: GuiEvent)
    ensures
        !edited(Seq::empty()),
        edited(events.push(event)) == (edited(events) || MicApp::is_edit(&event)),
{
    let more = events.push(event);
    if edited(events) {
        let i = choose|i: int| 0 <= i < events.len() && MicApp::is_edit(&#[trigger] events[i]);
        assert(more[i] == events[i]);
    }
    assert(more[events.len() as int] == event);
    if edited(more) {
        let i = choose|i: int| 0 <= i < more.len() && MicApp::is_edit(&#[trigger] more[i]);
        if i < events.len() {
            assert(more[i] == events[i]);
        }
    }
}

/// Switching the monitor opens no device: the engine is told nothing but the switch.
pub proof fn law_monitor_switches_without_reopening(
    before: MicApp,
    on: bool,
    after: MicApp,
    actions: Seq<GuiAction>,
)
    requires
        before.answers(GuiEvent::SetMonitor(on), after, actions),
    ensures
        forall|i: int| 0 <= i < actions.len() ==> !(#[trigger] actions[i] is Command),
        on != before.settings.monitor_enabled ==> actions[0] == GuiAction::Monitor(on),
        after.settings.monitor_enabled == on,
        after.selected_monitor == before.selected_monitor,
{
}

/// What was selected is selected again at the next start, as long as the devices are still
/// there: writing the configuration and opening a window with it restores the selection.
pub proof fn law_selection_survives_a_restart(
    a: MicApp,
    stored: MicApp,
    inputs: Seq<String>,
    outputs: Seq<String>,
)
    requires
        a.noted(stored),
    ensures
        a.selected_input@.len() > 0 && holds(inputs, a.selected_input@) ==> restored(
            stored.settings.input_device,
            inputs,
        ) == a.selected_input@,
        a.selected_output@.len() > 0 && holds(outputs, a.selected_output@) ==> restored(
            stored.settings.output_device,
            outputs,
        ) == a.selected_output@,
        a.selected_monitor@.len() > 0 && holds(outputs, a.selected_monitor@) ==> restored(
            stored.settings.monitor_device,
            outputs,
        ) == a.selected_monitor@,
{
}

/// The meter is never filled by less than nothing or more than all.
pub proof fn law_meter_stays_within_its_bar(db: Single)
    requires
        !fill_fraction(db).nan(),
    ensures
        Single::zero().le(fill_fraction(db)),
        fill_fraction(db).le(Single::one()),
{
    reveal(crate::float::less);
    reveal(crate::float::at_most);
    lemma_at_most(Single::zero(), Single::one());
}

} // verus!
