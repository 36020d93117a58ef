use vstd::prelude::*;
use vstd::string::StringSliceAdditionalSpecFns;
use crate::key::append_bytes;

verus! {

/// Why a command line cannot be turned into a request.
#[derive(Debug, Clone, Copy, PartialEq, Eq, Structural)]
pub enum RequestError {
    /// The first word is not a known command.
    InvalidCommand,
    /// The command has the wrong number of arguments.
    InvalidArguments,
}

impl RequestError {
    /// A short description of the error.
    pub fn message(&self) -> &'static str {
        match self {
            RequestError::InvalidCommand => "Invalid command",
            RequestError::InvalidArguments => "Invalid number of arguments",
        }
    }
}

/// The ASCII space.
pub const SPACE: u8 = 32;

/// The words of `s` separated by single spaces, empty words included, as
/// `str::split(' ')` gives them: always at least one.
pub open spec fn split_spec(s: Seq<u8>) -> Seq<Seq<u8>>
    decreases s.len(),
{
    if s.len() == 0 {
        seq![Seq::empty()]
    } else {
        let r = split_spec(s.drop_last());
        if s.last() == SPACE {
            r.push(Seq::empty())
        } else {
            r.update(r.len() - 1, r.last().push(s.last()))
        }
    }
}

/// A byte with ASCII upper case letters lowered.
pub open spec fn lower_byte(b: u8) -> u8 {
    if 65 <= b <= 90 {
        (b + 32) as u8
    } else {
        b
    }
}

/// The bytes of `s` with ASCII upper case letters lowered.
pub open spec fn lower_spec(s: Seq<u8>) -> Seq<u8> {
    s.map_values(|b: u8| lower_byte(b))
}

/// "get"
pub open spec fn get_word() -> Seq<u8> {
    seq![103u8, 101, 116]
}

/// "set"
pub open spec fn set_word() -> Seq<u8> {
    seq![115u8, 101, 116]
}

/// The commands a server knows: get, set, del, incr, decr, mget, setnx.
pub open spec fn is_command(c: Seq<u8>) -> bool {
    ||| c == get_word()
    ||| c == set_word()
    ||| c == seq![100u8, 101, 108]
    ||| c == seq![105u8, 110, 99, 114]
    ||| c == seq![100u8, 101, 99, 114]
    ||| c == seq![109u8, 103, 101, 116]
    ||| c == seq![115u8, 101, 116, 110, 120]
}

/// The four big-endian bytes of `v`.
pub open spec fn be_bytes32(v: u32) -> Seq<u8> {
    seq![
        ((v >> 24u32) & 0xff) as u8,
        ((v >> 16u32) & 0xff) as u8,
        ((v >> 8u32) & 0xff) as u8,
        (v & 0xff) as u8,
    ]
}

/// Each part as its big-endian 4-byte length followed by its bytes.
pub open spec fn encode_parts(parts: Seq<Seq<u8>>) -> Seq<u8>
    decreases parts.len(),
{
    if parts.len() == 0 {
        Seq::empty()
    } else {
        encode_parts(parts.drop_last()) + be_bytes32(parts.last().len() as u32) + parts.last()
    }
}

/// The parts with the first one lowered.
pub open spec fn lower_first(parts: Seq<Seq<u8>>) -> Seq<Seq<u8>> {
    if parts.len() == 0 {
        parts
    } else {
        parts.update(0, lower_spec(parts[0]))
    }
}

/// A request frame: the number of parts as a big-endian 4-byte word, then
/// the parts, the first lowered.
pub open spec fn frame_request(parts: Seq<Seq<u8>>) -> Seq<u8> {
    be_bytes32(parts.len() as u32) + encode_parts(lower_first(parts))
}

/// What a command line turns into: `get` with one argument or `set` with
/// two, in any letter case, becomes a request frame.
pub open spec fn request_spec(line: Seq<u8>) -> Result<Seq<u8>, RequestError> {
    let parts = split_spec(line);
    let cmd = lower_spec(parts[0]);
    if !is_command(cmd) {
        Err(RequestError::InvalidCommand)
    } else if (cmd == get_word() && parts.len() == 2) || (cmd == set_word() && parts.len() == 3) {
        Ok(frame_request(parts))
    } else {
        Err(RequestError::InvalidArguments)
    }
}

/// Appends the four big-endian bytes of `v`.
pub fn put_u32(dst: &mut Vec<u8>, v: u32)
    ensures
        final(dst)@ == old(dst)@ + be_bytes32(v),
{
    dst.push(((v >> 24u32) & 0xff) as u8);
    dst.push(((v >> 16u32) & 0xff) as u8);
    dst.push(((v >> 8u32) & 0xff) as u8);
    dst.push((v & 0xff) as u8);
    assert(final(dst)@ =~= old(dst)@ + be_bytes32(v));
}

/// The bytes of `s` with ASCII upper case letters lowered.
pub fn to_ascii_lower(s: &[u8]) -> (r: Vec<u8>)
    ensures
        r@ == lower_spec(s@),
{
    let mut out: Vec<u8> = Vec::new();
    let mut i: usize = 0;
    while i < s.len()
        invariant
            i <= s@.len(),
            out@ == lower_spec(s@.subrange(0, i as int)),
        decreases s@.len() - i,
    {
        let b = s[i];
        let l: u8 = if 65 <= b && b <= 90 {
            b + 32
        } else {
            b
        };
        out.push(l);
        i = i + 1;
        assert(out@ =~= lower_spec(s@.subrange(0, i as int)));
    }
    assert(s@.subrange(0, s@.len() as int) =~= s@);
    out
}

/// The words of `s` separated by single spaces.
pub fn split_words(s: &[u8]) -> (r: Vec<Vec<u8>>)
    ensures
        r@.len() == split_spec(s@).len(),
        forall|j: int| 0 <= j < r@.len() ==> #[trigger] r@[j]@ == split_spec(s@)[j],
{
    let mut done: Vec<Vec<u8>> = Vec::new();
    let mut cur: Vec<u8> = Vec::new();
    let mut i: usize = 0;
    while i < s.len()
        invariant
            i <= s@.len(),
            done@.len() + 1 == split_spec(s@.subrange(0, i as int)).len(),
            forall|j: int| 0 <= j < done@.len() ==> #[trigger] done@[j]@ == split_spec(
                s@.subrange(0, i as int),
            )[j],
            cur@ == split_spec(s@.subrange(0, i as int)).last(),
        decreases s@.len() - i,
    {
        let ghost prev = s@.subrange(0, i as int);
        let b = s[i];
        i = i + 1;
        let ghost now = s@.subrange(0, i as int);
        assert(now.drop_last() =~= prev);
        if b == SPACE {
            let mut fresh: Vec<u8> = Vec::new();
            std::mem::swap(&mut fresh, &mut cur);
            done.push(fresh);
        } else {
            cur.push(b);
        }
    }
    assert(s@.subrange(0, s@.len() as int) =~= s@);
    done.push(cur);
    done
}

/// Whether two byte strings are equal.
fn bytes_eq(a: &[u8], b: &[u8]) -> (r: bool)
    ensures
        r == (a@ == b@),
{
    if a.len() != b.len() {
        return false;
    }
    let mut i: usize = 0;
    while i < a.len()
        invariant
            i <= a@.len(),
            a@.len() == b@.len(),
            a@.subrange(0, i as int) == b@.subrange(0, i as int),
        decreases a@.len() - i,
    {
        if a[i] != b[i] {
            assert(a@[i as int] != b@[i as int]);
            return false;
        }
        i = i + 1;
        assert(a@.subrange(0, i as int) =~= b@.subrange(0, i as int)) by {
            assert forall|k: int| 0 <= k < i implies a@.subrange(0, i as int)[k] == b@.subrange(
                0,
                i as int,
            )[k] by {
                if k < i - 1 {
                    assert(a@.subrange(0, i - 1)[k] == b@.subrange(0, i - 1)[k]);
                }
            }
        }
    }
    assert(a@ =~= a@.subrange(0, a@.len() as int));
    assert(b@ =~= b@.subrange(0, b@.len() as int));
    true
}

/// Whether `c` names a known command.
pub fn command_known(c: &[u8]) -> (r: bool)
    ensures
        r == is_command(c@),
{
    let get: [u8; 3] = [103, 101, 116];
    let set: [u8; 3] = [115, 101, 116];
    let del: [u8; 3] = [100, 101, 108];
    let incr: [u8; 4] = [105, 110, 99, 114];
    let decr: [u8; 4] = [100, 101, 99, 114];
    let mget: [u8; 4] = [109, 103, 101, 116];
    let setnx: [u8; 5] = [115, 101, 116, 110, 120];
    assert(get@ =~= get_word());
    assert(set@ =~= set_word());
    assert(del@ =~= seq![100u8, 101, 108]);
    assert(incr@ =~= seq![105u8, 110, 99, 114]);
    assert(decr@ =~= seq![100u8, 101, 99, 114]);
    assert(mget@ =~= seq![109u8, 103, 101, 116]);
    assert(setnx@ =~= seq![115u8, 101, 116, 110, 120]);
    bytes_eq(c, get.as_slice()) || bytes_eq(c, set.as_slice()) || bytes_eq(c, del.as_slice())
        || bytes_eq(c, incr.as_slice()) || bytes_eq(c, decr.as_slice()) || bytes_eq(
        c,
        mget.as_slice(),
    ) || bytes_eq(c, setnx.as_slice())
}

/// The request frame for `parts`: their number, then each part's length and
/// bytes, the first part lowered.
pub fn make_buf(parts: &Vec<Vec<u8>>) -> (r: Vec<u8>)
    requires
        parts@.len() <= u32::MAX,
        forall|j: int| 0 <= j < parts@.len() ==> #[trigger] parts@[j]@.len() <= u32::MAX,
    ensures
        r@ == frame_request(parts@.map_values(|p: Vec<u8>| p@)),
{
    let ghost views = parts@.map_values(|p: Vec<u8>| p@);
    let ghost lowered = lower_first(views);
    let mut buf: Vec<u8> = Vec::new();
    put_u32(&mut buf, parts.len() as u32);
    let mut i: usize = 0;
    while i < parts.len()
        invariant
            i <= parts@.len(),
            views == parts@.map_values(|p: Vec<u8>| p@),
            lowered == lower_first(views),
            parts@.len() <= u32::MAX,
            forall|j: int| 0 <= j < parts@.len() ==> #[trigger] parts@[j]@.len() <= u32::MAX,
            buf@ == be_bytes32(parts@.len() as u32) + encode_parts(lowered.subrange(0, i as int)),
        decreases parts@.len() - i,
    {
        let part: Vec<u8> = if i == 0 {
            to_ascii_lower(parts[i].as_slice())
        } else {
            parts[i].clone()
        };
        assert(part@ == lowered[i as int]);
        put_u32(&mut buf, part.len() as u32);
        append_bytes(&mut buf, part.as_slice());
        let ghost sub = lowered.subrange(0, i + 1);
        assert(sub.drop_last() =~= lowered.subrange(0, i as int));
        i = i + 1;
        assert(buf@ =~= be_bytes32(parts@.len() as u32) + encode_parts(lowered.subrange(0, i as int)));
    }
    assert(lowered.subrange(0, parts@.len() as int) =~= lowered);
    assert(views.len() == parts@.len());
    buf
}

/// Turns a command line such as `get key` or `SET key value` into a
/// request frame.
pub fn make_request(cmd_str: &str) -> (r: Result<Vec<u8>, RequestError>)
    requires
        cmd_str.spec_bytes().len() <= u32::MAX,
    ensures
        match request_spec(cmd_str.spec_bytes()) {
            Ok(f) => r matches Ok(v) && v@ == f,
            Err(e) => r == Err::<Vec<u8>, RequestError>(e),
        },
{
    let line: &[u8] = cmd_str.as_bytes();
    let parts: Vec<Vec<u8>> = split_words(line);
    proof {
        lemma_split_bounds(line@);
    }
    let cmd: Vec<u8> = to_ascii_lower(parts[0].as_slice());
    if !command_known(cmd.as_slice()) {
        return Err(RequestError::InvalidCommand);
    }
    let get: [u8; 3] = [103, 101, 116];
    let set: [u8; 3] = [115, 101, 116];
    assert(get@ =~= get_word());
    assert(set@ =~= set_word());
    let is_get = bytes_eq(cmd.as_slice(), get.as_slice());
    let is_set = bytes_eq(cmd.as_slice(), set.as_slice());
    if (is_get && parts.len() == 2) || (is_set && parts.len() == 3) {
        let ghost views = parts@.map_values(|p: Vec<u8>| p@);
        assert(views =~= split_spec(line@));
        Ok(make_buf(&parts))
    } else {
        Err(RequestError::InvalidArguments)
    }
}

proof fn lemma_split_bounds(s: Seq<u8>)
    ensures
        1 <= split_spec(s).len() <= s.len() + 1,
        forall|j: int| 0 <= j < split_spec(s).len() ==> #[trigger] split_spec(s)[j].len() <= s.len(),
    decreases s.len(),
{
    if s.len() > 0 {
        lemma_split_bounds(s.drop_last());
        let r = split_spec(s.drop_last());
        let q = split_spec(s);
        assert forall|j: int| 0 <= j < q.len() implies #[trigger] q[j].len() <= s.len() by {
            if j < r.len() {
                assert(r[j].len() <= s.len() - 1);
            }
        }
    }
}

} // verus!
