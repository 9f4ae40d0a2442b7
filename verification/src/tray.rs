//! The tray icon and the window behaviour around it.
use vstd::prelude::*;

verus! {

/// The icon is square, with this many pixels to a side.
pub const ICON_SIDE: u32 = 16;

/// The pixel belongs to the microphone: a ring around the head, a stem, and a foot. Distances
/// from the head's centre are counted in half pixels, so that pixel centres lie on whole numbers.
pub open spec fn icon_on(x: int, y: int) -> bool {
    let dx = 2 * x - 15;
    let dy = 2 * y - 13;
    let square = dx * dx + dy * dy;
    ||| 81 <= square <= 169
    ||| -2 < dx < 2 && 9 < dy < 14
    ||| 12 < dy < 15 && -5 < dx < 5
}

/// One byte of the icon: red, green, blue and opacity of each pixel, row by row.
pub open spec fn icon_byte(k: int) -> u8 {
    let pixel = k / 4;
    if icon_on(pixel % 16, pixel / 16) {
        if k % 4 == 0 {
            80
        } else if k % 4 == 1 {
            200
        } else if k % 4 == 2 {
            120
        } else {
            255
        }
    } else {
        0
    }
}

/// The tray icon, a green microphone on a clear ground: its pixels, its width and its height.
pub fn tray_icon_rgba() -> (r: (Vec<u8>, u32, u32))
    ensures
        r.0@ == Seq::new(1024, |k: int| icon_byte(k)),
        r.1 == ICON_SIDE,
        r.2 == ICON_SIDE,
{
    let mut rgba: Vec<u8> = Vec::new();
    let mut p: i32 = 0;
    while p < 256
        invariant
            0 <= p <= 256,
            rgba@.len() == 4 * p,
            forall|k: int| 0 <= k < 4 * p ==> rgba@[k] == icon_byte(k),
        decreases 256 - p,
    {
        let dx: i32 = 2 * (p % 16) - 15;
        let dy: i32 = 2 * (p / 16) - 13;
        assert(dx * dx <= 225 && dy * dy <= 289) by (nonlinear_arith)
            requires
                -15 <= dx <= 15,
                -13 <= dy <= 17,
        ;
        assert(dx * dx >= 0 && dy * dy >= 0) by (nonlinear_arith);
        let square: i32 = dx * dx + dy * dy;
        let on: bool = (81 <= square && square <= 169) || (-2 < dx && dx < 2 && 9 < dy && dy < 14)
            || (12 < dy && dy < 15 && -5 < dx && dx < 5);
        if on {
            rgba.push(80);
            rgba.push(200);
            rgba.push(120);
            rgba.push(255);
        } else {
            rgba.push(0);
            rgba.push(0);
            rgba.push(0);
            rgba.push(0);
        }
        p = p + 1;
    }
    assert(rgba@ =~= Seq::new(1024, |k: int| icon_byte(k)));
    (rgba, ICON_SIDE, ICON_SIDE)
}

/// What the tray menu offers.
#[derive(Clone, Copy, Debug, PartialEq, Eq, Structural)]
pub enum TrayCmd {
    Show,
    Quit,
}

/// What is to be done about the window.
#[derive(Clone, Copy, Debug, PartialEq, Eq, Structural)]
pub enum WindowAction {
    /// Close it for good.
    Close,
    Show,
    Focus,
    /// Do not let it be closed.
    CancelClose,
    Hide,
    /// Draw its contents.
    Draw,
    /// Draw again after this many milliseconds, even while hidden.
    DrawAgain(u64),
}

/// The command of a menu item, if the item is one of the two.
pub fn menu_command(is_show: bool, is_quit: bool) -> (r: Option<TrayCmd>)
    ensures
        r == if is_show {
            Some(TrayCmd::Show)
        } else if is_quit {
            Some(TrayCmd::Quit)
        } else {
            None
        },
{
    if is_show {
        Some(TrayCmd::Show)
    } else if is_quit {
        Some(TrayCmd::Quit)
    } else {
        None
    }
}

/// The number of commands before the first to quit, or all of them.
pub open spec fn before_quit(cmds: Seq<TrayCmd>) -> nat
    decreases cmds.len(),
{
    if cmds.len() == 0 || cmds[0] is Quit {
        0
    } else {
        1 + before_quit(cmds.drop_first())
    }
}

/// To show the window `n` times.
pub open spec fn shows(n: nat) -> Seq<WindowAction> {
    Seq::new(
        2 * n,
        |k: int|
            if k % 2 == 0 {
                WindowAction::Show
            } else {
                WindowAction::Focus
            },
    )
}

/// What follows the commands of a frame: a command to quit closes the window at once. Otherwise a
/// request to close hides the window, unless it comes from quitting; and without one, the window
/// is drawn.
pub open spec fn spec_window_end(quit: bool, quitting: bool, close_requested: bool) -> Seq<WindowAction> {
    if quit {
        seq![WindowAction::Close]
    } else if close_requested {
        if quitting {
            Seq::empty()
        } else {
            seq![WindowAction::CancelClose, WindowAction::Hide]
        }
    } else {
        seq![WindowAction::Draw, WindowAction::DrawAgain(100)]
    }
}

proof fn lemma_before_quit(cmds: Seq<TrayCmd>, i: nat)
    requires
        i <= cmds.len(),
        forall|j: int| 0 <= j < i ==> cmds[j] is Show,
        i == cmds.len() || cmds[i as int] is Quit,
    ensures
        before_quit(cmds) == i,
    decreases i,
{
    if i > 0 {
        let rest = cmds.drop_first();
        assert forall|j: int| 0 <= j < i - 1 implies rest[j] is Show by {
            assert(rest[j] == cmds[j + 1]);
        }
        lemma_before_quit(rest, (i - 1) as nat);
    }
}

/// One frame of the window behind the tray. Commands up to the first to quit are carried out in
/// order; what comes after it is dropped.
pub fn window_frame(quitting: &mut bool, cmds: &Vec<TrayCmd>, close_requested: bool) -> (r: Vec<
    WindowAction,
>)
    ensures
        *final(quitting) == (*old(quitting) || before_quit(cmds@) < cmds@.len()),
        r@ == shows(before_quit(cmds@)) + spec_window_end(
            before_quit(cmds@) < cmds@.len(),
            *old(quitting),
            close_requested,
        ),
{
    let mut r: Vec<WindowAction> = Vec::new();
    let mut i: usize = 0;
    assert(r@ =~= shows(0));
    while i < cmds.len()
        invariant
            i <= cmds@.len(),
            forall|j: int| 0 <= j < i ==> cmds@[j] is Show,
            r@ == shows(i as nat),
            *quitting == *old(quitting),
        decreases cmds@.len() - i,
    {
        match cmds[i] {
            TrayCmd::Quit => {
                proof {
                    lemma_before_quit(cmds@, i as nat);
                }
                *quitting = true;
                r.push(WindowAction::Close);
                assert(r@ =~= shows(i as nat) + seq![WindowAction::Close]);
                return r;
            },
            TrayCmd::Show => {
                r.push(WindowAction::Show);
                r.push(WindowAction::Focus);
                assert(r@ =~= shows((i + 1) as nat));
            },
        }
        i = i + 1;
    }
    proof {
        lemma_before_quit(cmds@, i as nat);
    }
    if close_requested {
        if !*quitting {
            r.push(WindowAction::CancelClose);
            r.push(WindowAction::Hide);
        }
    } else {
        r.push(WindowAction::Draw);
        r.push(WindowAction::DrawAgain(100));
    }
    assert(r@ =~= shows(i as nat) + spec_window_end(false, *quitting, close_requested));
    r
}

/// Closing the window only hides it, until the user quits from the tray: the window closes if
/// and only if a command to quit is among those of the frame, and from then on the window counts
/// as quitting.
pub proof fn law_only_quit_closes(cmds: Seq<TrayCmd>, quitting: bool, close_requested: bool)
    ensures
        ({
            let quit = before_quit(cmds) < cmds.len();
            let actions = shows(before_quit(cmds)) + spec_window_end(
                quit,
                quitting,
                close_requested,
            );
            &&& actions.contains(WindowAction::Close) <==> cmds.contains(TrayCmd::Quit)
            &&& !quit && !quitting && close_requested ==> actions.contains(
                WindowAction::CancelClose,
            ) && actions.contains(WindowAction::Hide)
        }),
{
    lemma_quit_position(cmds);
    let n = before_quit(cmds);
    let quit = n < cmds.len();
    let end = spec_window_end(quit, quitting, close_requested);
    let actions = shows(n) + end;
    let base: int = shows(n).len() as int;
    if quit {
        assert(actions[base] == WindowAction::Close);
    } else {
        assert forall|k: int| 0 <= k < actions.len() implies actions[k] != WindowAction::Close by {
            if k >= base {
                assert(actions[k] == end[k - base]);
            }
        }
        if !quitting && close_requested {
            assert(actions[base] == WindowAction::CancelClose);
            assert(actions[base + 1] == WindowAction::Hide);
        }
    }
}

proof fn lemma_quit_position(cmds: Seq<TrayCmd>)
    ensures
        before_quit(cmds) <= cmds.len(),
        before_quit(cmds) < cmds.len() <==> cmds.contains(TrayCmd::Quit),
    decreases cmds.len(),
{
    if cmds.len() > 0 {
        if cmds[0] is Quit {
            assert(cmds.contains(TrayCmd::Quit));
        } else {
            let rest = cmds.drop_first();
            lemma_quit_position(rest);
            if cmds.contains(TrayCmd::Quit) {
                let k = choose|k: int| 0 <= k < cmds.len() && cmds[k] == TrayCmd::Quit;
                assert(rest[k - 1] == TrayCmd::Quit);
            }
            if rest.contains(TrayCmd::Quit) {
                let k = choose|k: int| 0 <= k < rest.len() && rest[k] == TrayCmd::Quit;
                assert(cmds[k + 1] == TrayCmd::Quit);
            }
        }
    }
}

} // verus!
