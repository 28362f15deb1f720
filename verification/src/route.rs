//! Which way a frame goes to the terminal.
use vstd::prelude::*;

verus! {

/// How the payload reaches the terminal.
#[derive(Debug, Clone, Copy, PartialEq, Eq, Structural)]
pub enum Transport {
    /// `t=s`: a name in `/dev/shm`, which the terminal reads and unlinks.
    SharedMemory,
    /// `t=d`: base64 in the escape sequence itself.
    Inline,
}

/// What a frame is made of.
#[derive(Debug, Clone, Copy, PartialEq, Eq, Structural)]
pub enum Payload {
    /// Decoded pixels.
    Raw,
    /// The engine's own file.
    Png,
}

/// How a picture is put on the screen.
#[derive(Debug, Clone, Copy, PartialEq, Eq, Structural)]
pub enum Placement {
    /// At the cursor.
    Direct,
    /// Under placeholder cells, which are text.
    Unicode,
}

/// What stands around a graphics command.
#[derive(Debug, Clone, Copy, PartialEq, Eq, Structural)]
pub enum Wrap {
    Bare,
    /// tmux's passthrough.
    Tmux,
}

/// Which way frames go.
#[derive(Debug, Clone, Copy, PartialEq, Eq, Structural)]
pub struct Route {
    pub transport: Transport,
    pub payload: Payload,
    pub placement: Placement,
    pub wrap: Wrap,
    /// Of the engine's frames, one in this many is asked for.
    pub every_nth: u32,
}

/// The way to a terminal on this machine with nothing in between.
pub open spec fn local_route(usable: bool) -> Route {
    Route {
        transport: if usable {
            Transport::SharedMemory
        } else {
            Transport::Inline
        },
        payload: Payload::Raw,
        placement: Placement::Direct,
        wrap: Wrap::Bare,
        every_nth: 1,
    }
}

impl Route {
    /// The way to a terminal on this machine with nothing in between: by name
    /// where shared memory is usable.
    pub fn local(usable: bool) -> (r: Route)
        ensures
            r == local_route(usable),
    {
        Route {
            transport: if usable {
                Transport::SharedMemory
            } else {
                Transport::Inline
            },
            payload: Payload::Raw,
            placement: Placement::Direct,
            wrap: Wrap::Bare,
            every_nth: 1,
        }
    }
}

}
