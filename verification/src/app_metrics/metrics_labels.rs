//! Label sets for the request counters.
use vstd::prelude::*;

use crate::text::{decimal, u64_to_string};

verus! {

/// The labels of an HTTP request: its method, its path and the response's
/// status code.
#[derive(Debug, Clone)]
pub struct HttpRequests {
    pub method: String,
    pub path: String,
    pub status: String,
}

pub fn http_requests(method: &str, path: &str, status: u16) -> (labels: HttpRequests)
    ensures
        labels.method@ == method@,
        labels.path@ == path@,
        labels.status@ == decimal(status as nat),
{
    HttpRequests { method: method.to_string(), path: path.to_string(), status: u64_to_string(status as u64) }
}

/// The label of a request about a room: its code, when there is one.
#[derive(Debug, Clone)]
pub struct GameRoom {
    pub room_code: Option<String>,
}

pub fn room_requests(room_code: &str) -> (labels: GameRoom)
    ensures
        labels.room_code matches Some(c) && c@ == room_code@,
{
    GameRoom { room_code: Some(room_code.to_string()) }
}

pub fn room_requests_or_noop(room_code: Option<&str>) -> (labels: GameRoom)
    ensures
        match room_code {
            Some(c) => labels.room_code matches Some(l) && l@ == c@,
            None => labels.room_code is None,
        },
{
    GameRoom {
        room_code: match room_code {
            Some(c) => Some(c.to_string()),
            None => None,
        },
    }
}

} // verus!
