//! Small decisions of the language server: the address of the server, the
//! progress reports of long tasks, and the numbering of progress tokens.
use vstd::prelude::*;
use vstd::string::StringExecFns;
use crate::numbers::{decimal, decimal_text};

verus! {

/// The URL of the server at `ip` and `port`: `http://ip:port`.
pub open spec fn server_url_text(ip: Seq<char>, port: nat) -> Seq<char> {
    "http://"@ + ip + ":"@ + decimal_text(port)
}

/// The notification that tells the client the server's URL.
pub struct ServerURL;

impl ServerURL {
    /// The URL of the server, given the text of its IP address and its port.
    pub fn get(ip: &str, port: u16) -> (r: String)
        ensures
            r@ == server_url_text(ip@, port as nat),
    {
        let mut r = String::from_str("http://");
        r.append(ip);
        r.append(":");
        let p = decimal(port as u64);
        r.append(p.as_str());
        r
    }
}

/// The state of a progress report: steps done out of a total, when the
/// total is known.
pub struct Progress {
    pub counts: Option<(u32, u32)>,
}

/// The message of a progress report with counts: `done/total:message`.
pub open spec fn progress_text(done: nat, total: nat, message: Seq<char>) -> Seq<char> {
    decimal_text(done) + "/"@ + decimal_text(total) + ":"@ + message
}

impl Progress {
    /// Records `add_step` more steps, if given and the total is known, and
    /// gives the message and the percentage to report.
    pub fn update(&mut self, message: String, add_step: Option<u32>) -> (r: (String, Option<u32>))
        requires
            match (old(self).counts, add_step) {
                (Some((d, t)), Some(i)) => t > 0 && 100 * (d + i) <= u32::MAX,
                (Some((d, t)), None) => t > 0 && 100 * d <= u32::MAX,
                _ => true,
            },
        ensures
            match (old(self).counts, add_step) {
                (Some((d, t)), Some(i)) => {
                    &&& final(self).counts == Some(((d + i) as u32, t))
                    &&& r.0@ == progress_text((d + i) as nat, t as nat, message@)
                    &&& r.1 == Some(((100 * (d + i)) / (t as int)) as u32)
                },
                (Some((d, t)), None) => {
                    &&& final(self).counts == old(self).counts
                    &&& r.0@ == progress_text(d as nat, t as nat, message@)
                    &&& r.1 == Some(((100 * d) / (t as int)) as u32)
                },
                (None, _) => final(self).counts is None && r.0@ == message@ && r.1 is None,
            },
    {
        match self.counts {
            Some((d, t)) => {
                let done = match add_step {
                    Some(i) => d + i,
                    None => d,
                };
                self.counts = Some((done, t));
                let mut m = decimal(done as u64);
                m.append("/");
                m.append(decimal(t as u64).as_str());
                m.append(":");
                m.append(message.as_str());
                (m, Some(100 * done / t))
            },
            None => (message, None),
        }
    }
}

/// The next progress token after a client announced token `n`: tokens stay
/// above every positive token seen.
pub fn next_token(current: u32, n: i32) -> (r: u32)
    ensures
        r == if n > 0 && current < n + 1 {
            (n + 1) as u32
        } else {
            current
        },
{
    if n > 0 {
        let m = n as u32 + 1;
        if current < m {
            m
        } else {
            current
        }
    } else {
        current
    }
}

} // verus!
