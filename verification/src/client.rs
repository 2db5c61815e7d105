//! What a chat client works out for itself: where its socket is, what it
//! shows of the messages it gets, and what it notes when its user picks a
//! name.

use vstd::prelude::*;
use crate::codec::{Envelope, ServerMessage};
use crate::text::same_text;

verus! {

/// The socket scheme that goes with the scheme of the page: the secure one
/// for a page that came over `https:`, the plain one for any other.
pub open spec fn socket_scheme(page_scheme: Seq<char>) -> Seq<char> {
    if page_scheme == "https:"@ {
        "wss:"@
    } else {
        "ws:"@
    }
}

/// The address of the chat socket on the host that served the page.
pub open spec fn socket_address(page_scheme: Seq<char>, host: Seq<char>) -> Seq<char> {
    socket_scheme(page_scheme) + "//"@ + host + "/websocket"@
}

/// The address of the chat socket for a page that came with `page_scheme`
/// from `host`.
pub fn websocket_url(page_scheme: &str, host: &str) -> (url: String)
    ensures
        url@ == socket_address(page_scheme@, host@),
{
    let mut url = if same_text(page_scheme, "https:") {
        String::from_str("wss:")
    } else {
        String::from_str("ws:")
    };
    url.append("//");
    url.append(host);
    url.append("/websocket");
    url
}

/// Whether a relayed message is the user's own, which the client has shown
/// already when it was sent: it is, where it bears the user's name.
pub fn is_own_echo(username: &str, message: &ServerMessage) -> (own: bool)
    ensures
        own == (message@.sender == username@),
{
    same_text(message.sender.as_str(), username)
}

/// The line that a client notes when its user has picked `name`.
pub fn join_banner(name: &str) -> (banner: ServerMessage)
    ensures
        banner@ == (Envelope { sender: "Server"@, msg: name@ + " has joined"@ }),
{
    let mut msg = name.to_owned();
    msg.append(" has joined");
    ServerMessage { sender: String::from_str("Server"), msg }
}

} // verus!
