//! Output backends: how an image gets onto a screen.
use crate::cells::WindowSize;
use crate::text;
use crate::text::{chars_of, is_text};
use vstd::prelude::*;

verus! {

/// What a backend has to know of its surroundings when it draws.
#[derive(Clone, Copy, Debug)]
pub struct Surroundings {
    /// What the terminal reports of its window, if it does.
    pub window: Option<WindowSize>,
    /// Whether the pane of tmux is the active one. True where there is no telling.
    pub pane_active: bool,
}

/// A backend could not turn an image into what it writes.
#[derive(Debug, PartialEq, Eq)]
pub enum DisplayError {
    /// The encoder refused the image, for the reason given.
    Encoding(String),
}

impl DisplayError {
    /// The reason that the encoder gave.
    pub open spec fn reason(self) -> Seq<char> {
        match self {
            DisplayError::Encoding(reason) => reason@,
        }
    }

    /// What is said of the error.
    pub fn message(&self) -> (r: String)
        ensures
            r@ == "Sixel encoding failed: "@ + self.reason(),
    {
        let mut out = "Sixel encoding failed: ".to_owned();
        match self {
            DisplayError::Encoding(reason) => out.append(reason.as_str()),
        }
        out
    }
}

/// A way to show an image, given as RGBA. A method returns what is to be written to the terminal.
pub trait OutputBackend {
    /// The name of the backend.
    fn name(&self) -> (r: &'static str);

    /// Whether the backend can be used. `device_exists` says whether its device, if it has one, is
    /// there.
    fn is_supported(&self, device_exists: bool) -> (r: bool);

    /// The device whose memory holds the picture. A backend with a device writes nothing to the
    /// terminal to show an image.
    fn device(&self) -> (r: Option<&str>);

    /// Shows an image.
    fn display(&mut self, rgba: &[u8], width: u32, height: u32, around: &Surroundings) -> (r: Result<
        String,
        DisplayError,
    >);

    /// Prepares the terminal.
    fn enter(&mut self) -> (r: String);

    /// Leaves the terminal as it was.
    fn leave(&mut self) -> (r: String);

    /// Empties the screen for text.
    fn clear(&mut self) -> (r: String);

    /// Shows the last image again, as it was.
    fn redraw(&mut self, around: &Surroundings) -> (r: String);

    /// Whether the image can vanish by itself, so that it has to be shown again from time to time.
    fn wants_periodic_redraw(&self) -> (r: bool);
}

// ---------------------------------------------------------------------------
// Choosing a backend.

/// What a choice of backend goes by.
pub struct Environment {
    /// Whether the viewer runs inside tmux.
    pub tmux: bool,
    /// Whether the viewer runs in a pane of herdr, which shows images by placeholders only.
    pub herdr: bool,
    /// Whether kitty says that this is a window of its own.
    pub kitty_window: bool,
    /// The name of the terminal program, if it gives one.
    pub term_program: Option<String>,
    /// The type of the terminal, if it is given.
    pub term: Option<String>,
    /// Whether the terminal says that it is Windows Terminal.
    pub windows_terminal: bool,
    /// Whether the output is a terminal.
    pub is_tty: bool,
    /// Whether there is a framebuffer.
    pub framebuffer: bool,
}

/// A choice of backend.
#[derive(Clone, Copy, Debug, PartialEq, Eq, Structural)]
pub enum BackendKind {
    /// The kitty protocol; `tmux` says whether through tmux.
    Kitty { tmux: bool },
    /// The kitty protocol with placeholders, not through tmux.
    KittyPlaceholder,
    /// Sixel graphics; `tmux` says whether inside tmux.
    Sixel { tmux: bool },
    /// The framebuffer.
    Framebuffer,
}

/// Whether the terminal knows the kitty protocol: kitty, Ghostty and WezTerm do, and every terminal
/// whose type has `kitty` in it.
pub open spec fn kitty_capable(env: Environment) -> bool {
    ||| env.kitty_window
    ||| (match env.term_program {
        Some(p) => p@ == "ghostty"@ || p@ == "WezTerm"@,
        None => false,
    })
    ||| (match env.term {
        Some(t) => text::occurs(t@, "kitty"@),
        None => false,
    })
}

/// Whether the terminal knows the kitty protocol.
pub fn is_kitty_capable(env: &Environment) -> (r: bool)
    ensures
        r == kitty_capable(*env),
{
    if env.kitty_window {
        return true;
    }
    if let Some(p) = &env.term_program {
        let cs = chars_of(p.as_str());
        if is_text(cs.as_slice(), "ghostty") || is_text(cs.as_slice(), "WezTerm") {
            return true;
        }
    }
    match &env.term {
        Some(t) => {
            let cs = chars_of(t.as_str());
            let word = chars_of("kitty");
            text::contains(cs.as_slice(), word.as_slice())
        },
        None => false,
    }
}

/// The backend that a name asks for. A name that is not known asks for kitty.
pub open spec fn named_backend(name: Seq<char>, env: Environment) -> BackendKind {
    if name == "kitty"@ {
        BackendKind::Kitty { tmux: false }
    } else if name == "tmux"@ {
        BackendKind::Kitty { tmux: true }
    } else if name == "herdr"@ {
        BackendKind::KittyPlaceholder
    } else if name == "sixel"@ {
        BackendKind::Sixel { tmux: env.tmux }
    } else if name == "framebuffer"@ {
        BackendKind::Framebuffer
    } else {
        BackendKind::Kitty { tmux: env.tmux }
    }
}

/// The backend that suits the environment: placeholders in herdr, whatever its panes say of kitty;
/// kitty where the terminal knows it; sixel in Windows Terminal; kitty in any other tmux; the
/// framebuffer on a bare terminal that has one; and kitty otherwise.
pub open spec fn suitable_backend(env: Environment) -> BackendKind {
    if env.herdr {
        BackendKind::KittyPlaceholder
    } else if kitty_capable(env) {
        BackendKind::Kitty { tmux: env.tmux }
    } else if env.windows_terminal {
        BackendKind::Sixel { tmux: env.tmux }
    } else if env.tmux {
        BackendKind::Kitty { tmux: true }
    } else if env.is_tty && env.framebuffer {
        BackendKind::Framebuffer
    } else {
        BackendKind::Kitty { tmux: false }
    }
}

/// The backend that a name asks for.
pub fn forced_backend(name: &str, env: &Environment) -> (r: BackendKind)
    ensures
        r == named_backend(name@, *env),
{
    let cs = chars_of(name);
    let n = cs.as_slice();
    if is_text(n, "kitty") {
        BackendKind::Kitty { tmux: false }
    } else if is_text(n, "tmux") {
        BackendKind::Kitty { tmux: true }
    } else if is_text(n, "herdr") {
        BackendKind::KittyPlaceholder
    } else if is_text(n, "sixel") {
        BackendKind::Sixel { tmux: env.tmux }
    } else if is_text(n, "framebuffer") {
        BackendKind::Framebuffer
    } else {
        BackendKind::Kitty { tmux: env.tmux }
    }
}

/// The backend to use: the one that is asked for, or else the one that suits the environment.
pub fn detect_backend(force: Option<&str>, env: &Environment) -> (r: BackendKind)
    ensures
        r == (match force {
            Some(name) => named_backend(name@, *env),
            None => suitable_backend(*env),
        }),
{
    if let Some(name) = force {
        return forced_backend(name, env);
    }
    if env.herdr {
        BackendKind::KittyPlaceholder
    } else if is_kitty_capable(env) {
        BackendKind::Kitty { tmux: env.tmux }
    } else if env.windows_terminal {
        BackendKind::Sixel { tmux: env.tmux }
    } else if env.tmux {
        BackendKind::Kitty { tmux: true }
    } else if env.is_tty && env.framebuffer {
        BackendKind::Framebuffer
    } else {
        BackendKind::Kitty { tmux: env.tmux }
    }
}

/// Which terminals know the kitty protocol: a window of kitty, Ghostty and WezTerm by their names, and
/// every type that has `kitty` somewhere in it. No other does.
pub proof fn law_who_knows_kitty(env: Environment)
    ensures
        env.kitty_window ==> kitty_capable(env),
        env.term_program matches Some(p) && (p@ == "ghostty"@ || p@ == "WezTerm"@) ==> kitty_capable(
            env,
        ),
        (env.term matches Some(t) && exists|a: Seq<char>, b: Seq<char>|
            t@ == #[trigger] (a + "kitty"@ + b)) ==> kitty_capable(env),
        kitty_capable(env) ==> env.kitty_window || (env.term_program matches Some(p) && (p@
            == "ghostty"@ || p@ == "WezTerm"@)) || (env.term matches Some(t) && exists|
            a: Seq<char>,
            b: Seq<char>,
        |
            t@ == #[trigger] (a + "kitty"@ + b)),
{
    if let Some(t) = env.term {
        text::law_part_of_a_text(t@, "kitty"@);
    }
}

/// When which backend suits. Whether it is said to run inside tmux is what the environment says.
pub proof fn law_when_a_backend_suits(env: Environment)
    ensures
        suitable_backend(env) is KittyPlaceholder <==> env.herdr,
        suitable_backend(env) is Sixel <==> env.windows_terminal && !env.herdr && !kitty_capable(
            env,
        ),
        suitable_backend(env) is Framebuffer <==> env.framebuffer && env.is_tty && !env.tmux
            && !env.windows_terminal && !env.herdr && !kitty_capable(env),
        suitable_backend(env) matches BackendKind::Sixel { tmux } ==> tmux == env.tmux,
        suitable_backend(env) matches BackendKind::Kitty { tmux } ==> tmux == env.tmux,
{
}

/// What each name asks for. Only `kitty` and `tmux` say themselves whether it is inside tmux.
pub proof fn law_what_a_name_asks_for(name: Seq<char>, env: Environment)
    ensures
        named_backend(name, env) is KittyPlaceholder <==> name == "herdr"@,
        named_backend(name, env) is Sixel <==> name == "sixel"@,
        named_backend(name, env) is Framebuffer <==> name == "framebuffer"@,
        named_backend(name, env) matches BackendKind::Sixel { tmux } ==> tmux == env.tmux,
        named_backend(name, env) matches BackendKind::Kitty { tmux } ==> tmux == (name == "tmux"@
            || (env.tmux && name != "kitty"@)),
{
    reveal_strlit("kitty");
    reveal_strlit("tmux");
    reveal_strlit("herdr");
    reveal_strlit("sixel");
    reveal_strlit("framebuffer");
    assert("kitty"@[0] == 'k' && "herdr"@[0] == 'h' && "sixel"@[0] == 's');
    assert("tmux"@.len() == 4 && "kitty"@.len() == 5 && "framebuffer"@.len() == 11);
}

} // verus!
