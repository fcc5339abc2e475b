//! The tray icon's side of the service: its tooltip follows the service's
//! state, and its menu puts requests.

use vstd::prelude::*;

use crate::commands::DEFAULT_IPC_BIND;
use crate::text;

verus! {

/// Menu entry that connects.
pub const MENU_CONNECT: u32 = 4001;

/// Menu entry that disconnects.
pub const MENU_DISCONNECT: u32 = 4002;

/// Menu entry that ends the tray.
pub const MENU_EXIT: u32 = 4003;

/// What is shown when the service does not answer.
pub const UNREACHABLE: &'static str = "unreachable";

/// Where the tray finds the service: as given, else as configured, else the
/// default.
pub fn tray_bind(given: Option<String>, configured: Option<String>) -> (r: String)
    ensures
        r@ == match given {
            Some(b) => b@,
            None => match configured {
                Some(c) => c@,
                None => DEFAULT_IPC_BIND@,
            },
        },
{
    match given {
        Some(b) => b,
        None => crate::commands::ipc_bind(configured),
    }
}

/// The icon's tooltip.
pub fn tip_for(state: &str) -> (r: String)
    ensures
        r@ == "aZTNA - "@ + state@,
{
    "aZTNA - ".to_owned().concat(state)
}

/// What the icon shows after a change: tooltip and notice, and the detail of
/// the event to log.
#[derive(Debug)]
pub struct Shown {
    pub tip: String,
    pub info: String,
    pub event: String,
}

/// The icon's memory: what it last showed.
#[derive(Debug)]
pub struct Tray {
    last_state: String,
}

impl View for Tray {
    type V = Seq<char>;

    closed spec fn view(&self) -> Seq<char> {
        self.last_state@
    }
}

impl Tray {
    /// Nothing shown yet.
    pub fn new() -> (r: Tray)
        ensures
            r@.len() == 0,
    {
        let no_chars: Vec<char> = Vec::new();
        Tray { last_state: text::string(no_chars.as_slice()) }
    }

    /// Takes the service's state, `None` where it did not answer, and tells
    /// what to show where that changed.
    pub fn poll(&mut self, state: Option<&str>) -> (r: Option<Shown>)
        ensures
            ({
                let now = match state {
                    Some(s) => s@,
                    None => UNREACHABLE@,
                };
                &&& final(self)@ == now
                &&& match r {
                    Some(s) => {
                        &&& now != old(self)@
                        &&& s.tip@ == "aZTNA - "@ + now
                        &&& s.info@ == "aZTNA is "@ + now
                        &&& s.event@ == "tray="@ + now
                    },
                    None => now == old(self)@,
                }
            }),
    {
        let now = match state {
            Some(s) => s,
            None => UNREACHABLE,
        };
        if text::str_eq(now, self.last_state.as_str()) {
            return None;
        }
        self.last_state = now.to_owned();
        Some(
            Shown {
                tip: tip_for(now),
                info: "aZTNA is ".to_owned().concat(now),
                event: "tray=".to_owned().concat(now),
            },
        )
    }
}

/// What a menu entry does.
#[derive(Debug, Clone, Copy, PartialEq, Eq, Structural)]
pub enum MenuAction {
    Connect,
    Disconnect,
    Exit,
    Nothing,
}

impl MenuAction {
    /// The request it puts to the service, where it puts one.
    pub fn request(&self) -> (r: Option<&'static str>)
        ensures
            match *self {
                MenuAction::Connect => r matches Some(c) && c@ == "connect"@,
                MenuAction::Disconnect => r matches Some(c) && c@ == "disconnect"@,
                _ => r is None,
            },
    {
        match self {
            MenuAction::Connect => Some("connect"),
            MenuAction::Disconnect => Some("disconnect"),
            _ => None,
        }
    }
}

/// What a menu entry does.
pub fn menu_command(cmd: u32) -> (r: MenuAction)
    ensures
        r == if cmd == MENU_CONNECT {
            MenuAction::Connect
        } else if cmd == MENU_DISCONNECT {
            MenuAction::Disconnect
        } else if cmd == MENU_EXIT {
            MenuAction::Exit
        } else {
            MenuAction::Nothing
        },
{
    if cmd == MENU_CONNECT {
        MenuAction::Connect
    } else if cmd == MENU_DISCONNECT {
        MenuAction::Disconnect
    } else if cmd == MENU_EXIT {
        MenuAction::Exit
    } else {
        MenuAction::Nothing
    }
}

/// What a mouse event on the icon leads to.
#[derive(Debug, Clone, Copy, PartialEq, Eq, Structural)]
pub enum IconEvent {
    OpenMenu,
    Connect,
    Nothing,
}

/// Reads the low half of a tray message: the right button's release opens the
/// menu, a double click connects.
pub fn icon_event(param: u32) -> (r: IconEvent)
    ensures
        r == if param % 65536 == 0x0205 {
            IconEvent::OpenMenu
        } else if param % 65536 == 0x0203 {
            IconEvent::Connect
        } else {
            IconEvent::Nothing
        },
{
    let event: u32 = param % 65536;
    if event == 0x0205 {
        IconEvent::OpenMenu
    } else if event == 0x0203 {
        IconEvent::Connect
    } else {
        IconEvent::Nothing
    }
}

} // verus!
