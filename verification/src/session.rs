use vstd::prelude::*;
use crate::command::{error_bytes, push_error_reply, spec_exec, spec_from_resp, Command};
use crate::db::DB;
use crate::laws::{lemma_run_done_end, lemma_run_fail_terminal};
use crate::machine::{init_machine, run, GRun, Machine, ParseError};
use crate::parser::{lemma_parser_machine_wf, Parser, MAX_ITERATIONS};
use crate::resp::{push_all, spec_encode, RespData};
use crate::storage::Storage;

verus! {

/// Settings of the listening server. The core consumes none of them itself;
/// the binary around it binds the address and caps the connections.
pub struct ServerConfig {
    pub host: String,
    pub port: u16,
    pub max_connections: usize,
}

impl Default for ServerConfig {
    /// Loopback on the conventional port, with a thousand connections.
    fn default() -> (r: ServerConfig)
        ensures
            r.host@ == "127.0.0.1"@,
            r.port == 6379,
            r.max_connections == 1000,
    {
        ServerConfig { host: "127.0.0.1".to_owned(), port: 6379, max_connections: 1000 }
    }
}

/// What one frame is answered with, and the store it leaves: a malformed or
/// refused command gets its error line, an executed one its encoded reply.
pub open spec fn reply_of(v: RespData, store: Map<Seq<u8>, RespData>) -> (Seq<u8>, Map<
    Seq<u8>,
    RespData,
>) {
    match spec_from_resp(v) {
        Err(e) => (error_bytes(e), store),
        Ok(c) => {
            let er = spec_exec(c, store);
            match er.0 {
                Ok(resp) => (spec_encode(resp), er.1),
                Err(e) => (error_bytes(e), er.1),
            }
        },
    }
}

/// The effect of one read: the replies written, the store left behind,
/// whether the connection closes, and the parser's machine and unconsumed
/// bytes afterwards.
pub struct Drained {
    pub replies: Seq<u8>,
    pub store: Map<Seq<u8>, RespData>,
    pub close: bool,
    pub machine: Machine,
    pub rest: Seq<u8>,
}

/// Every complete frame in the buffer answered in order, the store threaded
/// through, until the machine asks for more bytes (connection kept) or fails
/// (connection closed, buffer discarded).
pub open spec fn spec_drain(
    m: Machine,
    buf: Seq<u8>,
    store: Map<Seq<u8>, RespData>,
    md: int,
    ml: int,
) -> Drained
    decreases buf.len(),
{
    match run(m, buf, md, ml, MAX_ITERATIONS as nat) {
        GRun::More(m2) => Drained {
            replies: Seq::empty(),
            store,
            close: false,
            machine: m2,
            rest: buf,
        },
        GRun::Fail(e) => Drained {
            replies: Seq::empty(),
            store,
            close: true,
            machine: init_machine(),
            rest: Seq::empty(),
        },
        GRun::Done(v, end) => {
            if 1 <= end <= buf.len() {
                let rp = reply_of(v, store);
                let sub = spec_drain(init_machine(), buf.subrange(end, buf.len() as int), rp.1, md, ml);
                Drained {
                    replies: rp.0 + sub.replies,
                    store: sub.store,
                    close: sub.close,
                    machine: sub.machine,
                    rest: sub.rest,
                }
            } else {
                Drained {
                    replies: Seq::empty(),
                    store,
                    close: true,
                    machine: init_machine(),
                    rest: Seq::empty(),
                }
            }
        },
    }
}

/// One client's connection state: the incremental parser that owns every byte
/// read from the socket and not yet consumed.
pub struct ClientSession {
    parser: Parser,
}

impl ClientSession {
    /// The parser's machine.
    pub closed spec fn machine(self) -> Machine {
        self.parser.machine()
    }

    /// The bytes read and not yet consumed.
    pub closed spec fn pending(self) -> Seq<u8> {
        self.parser.bytes()
    }

    pub closed spec fn depth_limit(self) -> int {
        self.parser.depth_limit()
    }

    pub closed spec fn length_limit(self) -> int {
        self.parser.length_limit()
    }

    pub closed spec fn wf(self) -> bool {
        self.parser.wf()
    }

    /// A session whose parser starts fresh.
    pub fn new(max_depth: usize, max_length: usize) -> (r: ClientSession)
        ensures
            r.wf(),
            r.machine() == init_machine(),
            r.pending() == Seq::<u8>::empty(),
            r.depth_limit() == max_depth as int,
            r.length_limit() == max_length as int,
    {
        ClientSession { parser: Parser::new(max_depth, max_length) }
    }

    /// Feeds one read's bytes to the parser, answers every complete frame in
    /// order against the database, and says whether to close the connection.
    /// A parser error closes it; a command error only earns an error line.
    #[verifier::loop_isolation(false)]
    pub fn process_input<S: Storage>(&mut self, db: &mut DB<S>, input: &[u8]) -> (r: (
        Vec<u8>,
        bool,
    ))
        requires
            old(self).wf(),
        ensures
            final(self).wf(),
            final(self).depth_limit() == old(self).depth_limit(),
            final(self).length_limit() == old(self).length_limit(),
            ({
                let d = spec_drain(
                    old(self).machine(),
                    old(self).pending() + input@,
                    old(db).contents(),
                    old(self).depth_limit(),
                    old(self).length_limit(),
                );
                &&& r.0@ == d.replies
                &&& r.1 == d.close
                &&& final(db).contents() == d.store
                &&& final(self).machine() == d.machine
                &&& final(self).pending() == d.rest
            }),
    {
        let ghost md = old(self).depth_limit();
        let ghost ml = old(self).length_limit();
        let ghost fuel = MAX_ITERATIONS as nat;
        self.parser.read_buf(input);
        let ghost d0 = spec_drain(
            old(self).machine(),
            old(self).pending() + input@,
            old(db).contents(),
            md,
            ml,
        );
        let mut replies: Vec<u8> = Vec::new();
        loop
            invariant
                self.wf(),
                self.depth_limit() == md,
                self.length_limit() == ml,
                ({
                    let dc = spec_drain(self.machine(), self.pending(), db.contents(), md, ml);
                    d0.replies == replies@ + dc.replies && d0.store == dc.store && d0.close
                        == dc.close && d0.machine == dc.machine && d0.rest == dc.rest
                }),
            decreases self.pending().len(),
        {
            let ghost m_pre = self.machine();
            let ghost buf_pre = self.pending();
            let ghost store_pre = db.contents();
            let ghost replies_pre = replies@;
            proof {
                lemma_parser_machine_wf(self.parser);
                lemma_run_fail_terminal(m_pre, buf_pre, md, ml, fuel);
            }
            match self.parser.try_parse() {
                Ok(Some(v)) => {
                    let ghost vd = v.deep();
                    proof {
                        match run(m_pre, buf_pre, md, ml, fuel) {
                            GRun::Done(dv, end) => {
                                lemma_run_done_end(m_pre, buf_pre, md, ml, fuel, dv, end);
                            },
                            _ => {
                                assert(false);
                            },
                        }
                    }
                    match Command::from_resp(v) {
                        Ok(cmd) => {
                            match cmd.exec(db) {
                                Ok(resp) => {
                                    let bytes = resp.encode();
                                    push_all(&mut replies, bytes.as_slice());
                                },
                                Err(ce) => {
                                    push_error_reply(&mut replies, &ce);
                                },
                            }
                        },
                        Err(ce) => {
                            push_error_reply(&mut replies, &ce);
                        },
                    }
                    proof {
                        let rp = reply_of(vd, store_pre);
                        assert(replies@ =~= replies_pre + rp.0);
                        let sub = spec_drain(self.machine(), self.pending(), db.contents(), md, ml);
                        assert(spec_drain(m_pre, buf_pre, store_pre, md, ml).replies == rp.0
                            + sub.replies);
                        assert(replies_pre + (rp.0 + sub.replies) =~= (replies_pre + rp.0)
                            + sub.replies);
                    }
                },
                Ok(None) => {
                    proof {
                        assert(false);
                    }
                },
                Err(e) => {
                    match e {
                        ParseError::NeedMoreData => {
                            proof {
                                let dc = spec_drain(m_pre, buf_pre, store_pre, md, ml);
                                assert(d0.replies == replies@ + dc.replies);
                                assert(dc.replies == Seq::<u8>::empty());
                                assert(replies@ + Seq::<u8>::empty() =~= replies@);
                            }
                            return (replies, false);
                        },
                        _ => {
                            proof {
                                let dc = spec_drain(m_pre, buf_pre, store_pre, md, ml);
                                assert(dc.replies == Seq::<u8>::empty());
                                assert(replies@ + Seq::<u8>::empty() =~= replies@);
                            }
                            return (replies, true);
                        },
                    }
                },
            }
        }
    }
}

} // verus!
