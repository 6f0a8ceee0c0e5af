//! The applied state, kept inside the generated configuration file itself:
//! a sentinel line, a `#` line carrying the state, the sentinel again, then
//! the configuration body.

use crate::reconcile::{
    groups_view, services_view, state_wf, AppliedState, GroupModel, ServiceGroup,
};
use crate::service::{ServiceConfiguration, ServiceModel};
use crate::text::{chars_of, copy_opt_string, opt_view};
use base64::Engine;
use vstd::prelude::*;
use vstd::string::StrSliceExecFns;

verus! {

/// The sentinel that opens and closes the state preamble.
pub const PREAMBLE: &'static str = "# Managed by nis";

/// Where the line that starts `s` ends: its first `\n`, or the end of `s`.
pub open spec fn line_end(s: Seq<char>) -> int
    decreases s.len(),
{
    if s.len() == 0 {
        0
    } else if s[0] == '\n' {
        0
    } else {
        1 + line_end(s.drop_first())
    }
}

/// `line` without one trailing carriage return.
pub open spec fn strip_cr(line: Seq<char>) -> Seq<char> {
    if line.len() > 0 && line.last() == '\r' {
        line.drop_last()
    } else {
        line
    }
}

/// The first line of `s` and the text after it, split as `str::lines` splits:
/// at `\n`, dropping a `\r` before it. `None` when `s` is empty.
pub open spec fn split_line(s: Seq<char>) -> Option<(Seq<char>, Seq<char>)> {
    if s.len() == 0 {
        None
    } else if line_end(s) < s.len() {
        Some((strip_cr(s.subrange(0, line_end(s))), s.subrange(line_end(s) + 1, s.len() as int)))
    } else {
        Some((s, Seq::empty()))
    }
}

/// The first three lines of `s`, when it has three.
pub open spec fn first_three_lines(s: Seq<char>) -> Option<(Seq<char>, Seq<char>, Seq<char>)> {
    match split_line(s) {
        Some((l1, r1)) => match split_line(r1) {
            Some((l2, r2)) => match split_line(r2) {
                Some((l3, _)) => Some((l1, l2, l3)),
                None => None,
            },
            None => None,
        },
        None => None,
    }
}

/// The state text that a file's preamble carries: lines one and three are the
/// sentinel, and line two is `#` followed by that text.
pub open spec fn spec_unframe(text: Seq<char>) -> Option<Seq<char>> {
    match first_three_lines(text) {
        Some((l1, l2, l3)) => if l1 == PREAMBLE@ && l3 == PREAMBLE@ && l2.len() > 0 && l2[0] == '#' {
            Some(l2.drop_first())
        } else {
            None
        },
        None => None,
    }
}

/// A file that carries `payload` in its preamble, followed by `body`.
pub open spec fn spec_frame(payload: Seq<char>, body: Seq<char>) -> Seq<char> {
    PREAMBLE@ + seq!['\n', '#'] + payload + seq!['\n'] + PREAMBLE@ + seq!['\n', '\n'] + body
}

/// `s` holds no line break.
pub open spec fn single_line(s: Seq<char>) -> bool {
    forall|i: int| 0 <= i < s.len() ==> (#[trigger] s[i]) != '\n' && s[i] != '\r'
}

proof fn lemma_line_end(s: Seq<char>, i: int)
    requires
        0 <= i <= s.len(),
        forall|k: int| 0 <= k < i ==> (#[trigger] s[k]) != '\n',
        i == s.len() || s[i] == '\n',
    ensures
        line_end(s) == i,
    decreases i,
{
    if i > 0 {
        let t = s.drop_first();
        assert forall|k: int| 0 <= k < i - 1 implies (#[trigger] t[k]) != '\n' by {
            assert(t[k] == s[k + 1]);
        }
        lemma_line_end(t, i - 1);
    }
}

/// Scans the line that starts at `start`: where its text stops and where the
/// next line starts.
fn scan_line(cs: &Vec<char>, start: usize) -> (r: Option<(usize, usize)>)
    requires
        start <= cs@.len(),
    ensures
        r matches Some((stop, next)) ==> start <= stop <= next <= cs@.len() && split_line(
            cs@.subrange(start as int, cs@.len() as int),
        ) == Some((cs@.subrange(start as int, stop as int), cs@.subrange(next as int, cs@.len() as int))),
        r is None ==> split_line(cs@.subrange(start as int, cs@.len() as int)) is None,
{
    let n = cs.len();
    let ghost s = cs@.subrange(start as int, n as int);
    if start == n {
        return None;
    }
    let mut i: usize = start;
    while i < n && cs[i] != '\n'
        invariant
            start <= i <= n,
            n == cs@.len(),
            forall|k: int| start <= k < i ==> (#[trigger] cs@[k]) != '\n',
        decreases n - i,
    {
        i = i + 1;
    }
    proof {
        assert forall|k: int| 0 <= k < i - start implies (#[trigger] s[k]) != '\n' by {
            assert(s[k] == cs@[start + k]);
        }
        lemma_line_end(s, i - start);
    }
    if i == n {
        assert(cs@.subrange(n as int, n as int) =~= Seq::<char>::empty());
        return Some((n, n));
    }
    assert(s.subrange(0, i - start) =~= cs@.subrange(start as int, i as int));
    assert(s.subrange(i - start + 1, s.len() as int) =~= cs@.subrange(i + 1, n as int));
    if i > start && cs[i - 1] == '\r' {
        assert(cs@.subrange(start as int, i as int).drop_last() =~= cs@.subrange(start as int, i - 1));
        Some((i - 1, i + 1))
    } else {
        Some((i, i + 1))
    }
}

/// Whether `cs[from..to]` spells `word`.
fn spells(cs: &Vec<char>, from: usize, to: usize, word: &Vec<char>) -> (r: bool)
    requires
        from <= to <= cs@.len(),
    ensures
        r == (cs@.subrange(from as int, to as int) == word@),
{
    if to - from != word.len() {
        return false;
    }
    let mut k: usize = 0;
    while k < word.len()
        invariant
            to - from == word@.len(),
            from <= to <= cs@.len(),
            k <= word@.len(),
            forall|j: int| 0 <= j < k ==> cs@[from + j] == word@[j],
        decreases word.len() - k,
    {
        if cs[from + k] != word[k] {
            assert(cs@.subrange(from as int, to as int)[k as int] != word@[k as int]);
            return false;
        }
        k = k + 1;
    }
    assert(cs@.subrange(from as int, to as int) =~= word@);
    true
}

/// The state text in the preamble of `text`, when the preamble is well formed.
pub fn unframe(text: &str) -> (r: Option<&str>)
    ensures
        r matches Some(p) ==> spec_unframe(text@) == Some(p@),
        r is None ==> spec_unframe(text@) is None,
{
    let cs = chars_of(text);
    let n = cs.len();
    let sentinel = chars_of(PREAMBLE);
    assert(cs@.subrange(0, n as int) =~= cs@);
    let (stop1, next1) = match scan_line(&cs, 0) {
        Some(x) => x,
        None => {
            return None;
        },
    };
    let (stop2, next2) = match scan_line(&cs, next1) {
        Some(x) => x,
        None => {
            return None;
        },
    };
    let (stop3, _next3) = match scan_line(&cs, next2) {
        Some(x) => x,
        None => {
            return None;
        },
    };
    if !spells(&cs, 0, stop1, &sentinel) || !spells(&cs, next2, stop3, &sentinel) {
        return None;
    }
    if stop2 == next1 || cs[next1] != '#' {
        return None;
    }
    assert(cs@.subrange(next1 as int, stop2 as int).drop_first() =~= cs@.subrange(next1 + 1, stop2 as int));
    Some(text.substring_char(next1 + 1, stop2))
}

/// The file that carries `payload` in its preamble, followed by `body`.
pub fn frame(payload: &str, body: &str) -> (r: String)
    ensures
        r@ == spec_frame(payload@, body@),
{
    let mut out = String::from_str(PREAMBLE);
    out.append("\n#");
    out.append(payload);
    out.append("\n");
    out.append(PREAMBLE);
    out.append("\n\n");
    out.append(body);
    proof {
        reveal_strlit("\n#");
        reveal_strlit("\n");
        reveal_strlit("\n\n");
    }
    assert(out@ =~= spec_frame(payload@, body@));
    out
}

proof fn lemma_preamble_single_line()
    ensures
        single_line(PREAMBLE@),
        PREAMBLE@.len() == 16,
{
    reveal_strlit("# Managed by nis");
    assert(PREAMBLE@ == "# Managed by nis"@);
    assert(single_line(PREAMBLE@)) by {
        assert forall|i: int| 0 <= i < PREAMBLE@.len() implies (#[trigger] PREAMBLE@[i]) != '\n' && PREAMBLE@[i] != '\r' by {
        }
    }
}

/// Reading the preamble of a framed file gives back the state text that was
/// framed, whatever the body, when that text holds no line break.
pub proof fn lemma_frame_round_trip(payload: Seq<char>, body: Seq<char>)
    requires
        single_line(payload),
    ensures
        spec_unframe(spec_frame(payload, body)) == Some(payload),
{
    lemma_preamble_single_line();
    let p = PREAMBLE@;
    let t = spec_frame(payload, body);
    let r1 = seq!['#'] + payload + seq!['\n'] + p + seq!['\n', '\n'] + body;
    let l2 = seq!['#'] + payload;
    let r2 = p + seq!['\n', '\n'] + body;
    let r3 = seq!['\n'] + body;
    assert(t =~= p + seq!['\n'] + r1);
    assert forall|k: int| 0 <= k < p.len() implies (#[trigger] t[k]) != '\n' by {
        assert(t[k] == p[k]);
    }
    lemma_line_end(t, p.len() as int);
    assert(t.subrange(0, p.len() as int) =~= p);
    assert(t.subrange(p.len() as int + 1, t.len() as int) =~= r1);
    assert(strip_cr(p) == p);
    assert forall|k: int| 0 <= k < l2.len() implies (#[trigger] r1[k]) != '\n' by {
        if k > 0 {
            assert(r1[k] == payload[k - 1]);
        }
    }
    assert(r1[l2.len() as int] == '\n');
    lemma_line_end(r1, l2.len() as int);
    assert(r1.subrange(0, l2.len() as int) =~= l2);
    assert(r1.subrange(l2.len() as int + 1, r1.len() as int) =~= r2);
    assert(l2.last() != '\r') by {
        if payload.len() > 0 {
            assert(l2.last() == payload[payload.len() - 1]);
        }
    }
    assert(strip_cr(l2) == l2);
    assert forall|k: int| 0 <= k < p.len() implies (#[trigger] r2[k]) != '\n' by {
        assert(r2[k] == p[k]);
    }
    assert(r2[p.len() as int] == '\n');
    lemma_line_end(r2, p.len() as int);
    assert(r2.subrange(0, p.len() as int) =~= p);
    assert(l2.drop_first() =~= payload);
}

/// Why no state could be read from a configuration file.
#[derive(Debug, Clone, Copy, PartialEq, Eq, Structural)]
pub enum ReadError {
    /// There is no file: nothing was written before.
    NoPriorState,
    /// The file does not open with the state preamble.
    MalformedPreamble,
    /// The preamble is there, but the state in it does not read back.
    CorruptPayload,
}

/// Why a state could not be written into a configuration file.
#[derive(Debug, Clone, Copy, PartialEq, Eq, Structural)]
pub enum EncodeError {
    /// The serialized state is too large to encode.
    TooLarge,
}

/// One replica as stored: id, lifecycle state, name, host, port, path.
pub type ServiceRecord = (String, String, String, String, Option<i16>, Option<String>);

/// One group as stored: its name and its replicas.
pub type GroupRecord = (String, Vec<ServiceRecord>);

/// A stored replica, as values.
pub type ServiceRecordModel = (Seq<char>, Seq<char>, Seq<char>, Seq<char>, Option<i16>, Option<Seq<char>>);

/// A stored group, as values.
pub type GroupRecordModel = (Seq<char>, Seq<ServiceRecordModel>);

/// Serialized by serde_json: the bytes of the JSON text of the stored groups.
pub uninterp spec fn json_bytes_of(
    records: Seq<(Seq<char>, Seq<(Seq<char>, Seq<char>, Seq<char>, Seq<char>, Option<i16>, Option<Seq<char>>)>)>,
) -> Seq<u8>;

/// Parsed by serde_json: the stored groups that JSON bytes give, if any.
pub uninterp spec fn json_records_of(bytes: Seq<u8>) -> Option<
    Seq<(Seq<char>, Seq<(Seq<char>, Seq<char>, Seq<char>, Seq<char>, Option<i16>, Option<Seq<char>>)>)>,
>;

/// Encoded by base64's standard engine: the padded text for the bytes.
pub uninterp spec fn base64_text_of(bytes: Seq<u8>) -> Seq<char>;

/// Decoded by base64's standard engine: the bytes that the text encodes, if any.
pub uninterp spec fn base64_bytes_of(text: Seq<char>) -> Option<Seq<u8>>;

/// A character of base64's standard alphabet, or its padding.
pub open spec fn is_base64_char(c: char) -> bool {
    ('A' <= c <= 'Z') || ('a' <= c <= 'z') || ('0' <= c <= '9') || c == '+' || c == '/' || c == '='
}

#[verifier::external_type_specification]
#[verifier::external_body]
pub struct ExJsonError(serde_json::Error);

#[verifier::external_type_specification]
#[verifier::external_body]
pub struct ExBase64DecodeError(base64::DecodeError);

/// Relies on `serde_json::to_vec`, with serde's `Serialize` impls for vectors,
/// tuples, strings, `i16` and options: the JSON text of the groups. It fails
/// only where a `Serialize` impl fails or a map has a key that is not a
/// string, and neither occurs in these types.
#[verifier::external_body]
fn json_encode(records: &Vec<GroupRecord>) -> (r: Result<Vec<u8>, serde_json::Error>)
    ensures
        r is Ok,
        r matches Ok(b) ==> b@ == json_bytes_of(records.deep_view()),
{
    serde_json::to_vec(records)
}

/// Relies on `serde_json::from_slice`, with serde's `Deserialize` impls for the
/// same types: it reads back what `serde_json::to_vec` wrote.
#[verifier::external_body]
fn json_decode(bytes: &[u8]) -> (r: Result<Vec<GroupRecord>, serde_json::Error>)
    ensures
        r matches Ok(v) ==> json_records_of(bytes@) == Some(v.deep_view()),
        r is Err ==> json_records_of(bytes@) is None,
        forall|m: Seq<GroupRecordModel>|
            #[trigger] json_bytes_of(m) == bytes@ ==> r is Ok && r->Ok_0.deep_view() == m,
{
    serde_json::from_slice(bytes)
}

/// Relies on `Engine::encode` of base64's `STANDARD` engine: padded text over
/// the standard alphabet. It panics when the output length overflows `usize`.
#[verifier::external_body]
fn base64_encode(bytes: &[u8]) -> (r: String)
    requires
        bytes@.len() <= usize::MAX / 2,
    ensures
        r@ == base64_text_of(bytes@),
        forall|i: int| 0 <= i < r@.len() ==> is_base64_char(#[trigger] r@[i]),
{
    base64::engine::general_purpose::STANDARD.encode(bytes)
}

/// Relies on `Engine::decode` of base64's `STANDARD` engine: it gives back the
/// bytes whose encoding the text is.
#[verifier::external_body]
fn base64_decode(text: &str) -> (r: Result<Vec<u8>, base64::DecodeError>)
    ensures
        r matches Ok(b) ==> base64_bytes_of(text@) == Some(b@),
        r is Err ==> base64_bytes_of(text@) is None,
        forall|b: Seq<u8>| #[trigger] base64_text_of(b) == text@ ==> r is Ok && r->Ok_0@ == b,
{
    base64::engine::general_purpose::STANDARD.decode(text)
}

/// A replica as stored.
pub open spec fn service_record(d: ServiceModel) -> ServiceRecordModel {
    (d.id, d.state, d.name, d.host, d.port, d.path)
}

/// A replica read back from storage.
pub open spec fn service_of_record(r: ServiceRecordModel) -> ServiceModel {
    ServiceModel { id: r.0, state: r.1, name: r.2, host: r.3, port: r.4, path: r.5 }
}

/// The groups as stored.
pub open spec fn records_of(s: Seq<GroupModel>) -> Seq<GroupRecordModel> {
    s.map_values(|g: GroupModel| (g.name, g.services.map_values(|d: ServiceModel| service_record(d))))
}

/// The groups read back from storage.
pub open spec fn groups_of(m: Seq<GroupRecordModel>) -> Seq<GroupModel> {
    m.map_values(
        |r: GroupRecordModel|
            GroupModel { name: r.0, services: r.1.map_values(|x: ServiceRecordModel| service_of_record(x)) },
    )
}

/// Reading the stored form of a state gives the state back.
pub proof fn lemma_records_round_trip(s: Seq<GroupModel>)
    ensures
        groups_of(records_of(s)) == s,
{
    assert forall|i: int| 0 <= i < s.len() implies #[trigger] groups_of(records_of(s))[i] == s[i] by {
        let g = s[i];
        assert(g.services.map_values(|d: ServiceModel| service_record(d)).map_values(
            |x: ServiceRecordModel| service_of_record(x),
        ) =~= g.services);
    }
    assert(groups_of(records_of(s)) =~= s);
}

fn service_to_record(d: &ServiceConfiguration) -> (r: ServiceRecord)
    ensures
        r.deep_view() == service_record(d@),
{
    let r = (d.id.clone(), d.state.clone(), d.name.clone(), d.host.clone(), d.port, copy_opt_string(&d.path));
    assert(r.5.deep_view() == opt_view(d.path));
    r
}

fn record_to_service(r: &ServiceRecord) -> (d: ServiceConfiguration)
    ensures
        d@ == service_of_record(r.deep_view()),
{
    let d = ServiceConfiguration {
        id: r.0.clone(),
        state: r.1.clone(),
        name: r.2.clone(),
        host: r.3.clone(),
        port: r.4,
        path: copy_opt_string(&r.5),
    };
    assert(r.5.deep_view() == opt_view(r.5));
    d
}

/// The stored form of the state.
pub fn state_records(state: &AppliedState) -> (r: Vec<GroupRecord>)
    ensures
        r.deep_view() == records_of(state@),
{
    let mut out: Vec<GroupRecord> = Vec::new();
    let mut i: usize = 0;
    while i < state.groups.len()
        invariant
            i <= state.groups@.len(),
            out@.len() == i,
            forall|k: int| 0 <= k < i ==> (#[trigger] out@[k]).deep_view() == records_of(state@)[k],
        decreases state.groups.len() - i,
    {
        let g = &state.groups[i];
        let mut services: Vec<ServiceRecord> = Vec::new();
        let mut j: usize = 0;
        while j < g.services.len()
            invariant
                j <= g.services@.len(),
                services@.len() == j,
                forall|k: int| 0 <= k < j ==> (#[trigger] services@[k]).deep_view() == service_record(g.services@[k]@),
            decreases g.services.len() - j,
        {
            services.push(service_to_record(&g.services[j]));
            j = j + 1;
        }
        let rec = (g.name.clone(), services);
        assert(rec.deep_view() == records_of(state@)[i as int]) by {
            assert(state@[i as int] == g@);
            assert(services.deep_view() =~= g@.services.map_values(|d: ServiceModel| service_record(d)));
        }
        out.push(rec);
        i = i + 1;
    }
    assert(out.deep_view() =~= records_of(state@));
    out
}

/// The state that stored groups describe, when it is well formed.
pub fn state_from_records(records: &Vec<GroupRecord>) -> (r: Result<AppliedState, ReadError>)
    ensures
        r matches Ok(s) ==> s@ == groups_of(records.deep_view()) && state_wf(s@),
        r is Err ==> r == Err::<AppliedState, ReadError>(ReadError::CorruptPayload) && !state_wf(
            groups_of(records.deep_view()),
        ),
{
    let ghost target = groups_of(records.deep_view());
    let mut groups: Vec<ServiceGroup> = Vec::new();
    let mut i: usize = 0;
    while i < records.len()
        invariant
            i <= records@.len(),
            target == groups_of(records.deep_view()),
            groups@.len() == i,
            forall|k: int| 0 <= k < i ==> (#[trigger] groups@[k])@ == target[k],
        decreases records.len() - i,
    {
        let rec = &records[i];
        let mut services: Vec<ServiceConfiguration> = Vec::new();
        let mut j: usize = 0;
        while j < rec.1.len()
            invariant
                j <= rec.1@.len(),
                services@.len() == j,
                forall|k: int| 0 <= k < j ==> (#[trigger] services@[k])@ == service_of_record(rec.1@[k].deep_view()),
            decreases rec.1.len() - j,
        {
            services.push(record_to_service(&rec.1[j]));
            j = j + 1;
        }
        let g = ServiceGroup { name: rec.0.clone(), services };
        assert(g@ == target[i as int]) by {
            assert(records.deep_view()[i as int] == rec.deep_view());
            assert(services_view(services@) =~= rec.deep_view().1.map_values(|x: ServiceRecordModel| service_of_record(x)));
        }
        groups.push(g);
        i = i + 1;
    }
    assert(groups_view(groups@) =~= target);
    let state = AppliedState { groups };
    if state.is_well_formed() {
        Ok(state)
    } else {
        Err(ReadError::CorruptPayload)
    }
}

/// The text that the preamble carries for a state: its stored form as JSON,
/// encoded in base64.
pub open spec fn state_text(s: Seq<GroupModel>) -> Seq<char> {
    base64_text_of(json_bytes_of(records_of(s)))
}

/// The configuration file that carries the state `s` and then `body`.
pub open spec fn spec_encode(s: Seq<GroupModel>, body: Seq<char>) -> Seq<char> {
    spec_frame(state_text(s), body)
}

/// What reading the state out of a configuration file yields.
pub open spec fn spec_read(text: Seq<char>) -> Result<Seq<GroupModel>, ReadError> {
    match spec_unframe(text) {
        None => Err(ReadError::MalformedPreamble),
        Some(p) => match base64_bytes_of(p) {
            None => Err(ReadError::CorruptPayload),
            Some(b) => match json_records_of(b) {
                None => Err(ReadError::CorruptPayload),
                Some(m) => if state_wf(groups_of(m)) {
                    Ok(groups_of(m))
                } else {
                    Err(ReadError::CorruptPayload)
                },
            },
        },
    }
}

/// The value view of a read result.
pub open spec fn read_view(r: Result<AppliedState, ReadError>) -> Result<Seq<GroupModel>, ReadError> {
    match r {
        Ok(s) => Ok(s@),
        Err(e) => Err(e),
    }
}

/// Writes `state` into the preamble of a configuration file whose body is
/// `value`. It fails only when the serialized state is too large to encode.
pub fn append_state(value: &str, state: &AppliedState) -> (r: Result<String, EncodeError>)
    ensures
        json_bytes_of(records_of(state@)).len() <= usize::MAX / 2 ==> r is Ok,
        json_bytes_of(records_of(state@)).len() > usize::MAX / 2 ==> r == Err::<String, EncodeError>(
            EncodeError::TooLarge,
        ),
        r matches Ok(t) ==> t@ == spec_encode(state@, value@),
        r is Ok ==> single_line(state_text(state@)),
        r is Ok ==> forall|i: int|
            0 <= i < state_text(state@).len() ==> is_base64_char(#[trigger] state_text(state@)[i]),
{
    let records = state_records(state);
    let bytes = json_encode(&records).unwrap();
    if bytes.len() > usize::MAX / 2 {
        return Err(EncodeError::TooLarge);
    }
    let encoded = base64_encode(bytes.as_slice());
    assert(single_line(encoded@)) by {
        assert forall|i: int| 0 <= i < encoded@.len() implies (#[trigger] encoded@[i]) != '\n'
            && encoded@[i] != '\r' by {
            assert(is_base64_char(encoded@[i]));
        }
    }
    Ok(frame(encoded.as_str(), value))
}

proof fn lemma_encoded_unframes(text: Seq<char>, s: Seq<GroupModel>, body: Seq<char>)
    requires
        single_line(state_text(s)),
        spec_encode(s, body) == text,
    ensures
        spec_unframe(text) == Some(state_text(s)),
{
    lemma_frame_round_trip(state_text(s), body);
}

/// Reads the state out of the preamble of a configuration file. A file that
/// `append_state` wrote for a well-formed state reads back as that state.
pub fn read_state(text: &str) -> (r: Result<AppliedState, ReadError>)
    ensures
        read_view(r) == spec_read(text@),
        forall|s: Seq<GroupModel>, body: Seq<char>|
            state_wf(s) && single_line(state_text(s)) && #[trigger] spec_encode(s, body) == text@
                ==> r is Ok && r->Ok_0@ == s,
{
    let payload = match unframe(text) {
        Some(p) => p,
        None => {
            proof {
                assert forall|s: Seq<GroupModel>, body: Seq<char>|
                    state_wf(s) && single_line(state_text(s)) && #[trigger] spec_encode(s, body)
                        == text@ implies false by {
                    lemma_encoded_unframes(text@, s, body);
                }
            }
            return Err(ReadError::MalformedPreamble);
        },
    };
    let bytes = match base64_decode(payload) {
        Ok(b) => b,
        Err(_) => {
            proof {
                assert forall|s: Seq<GroupModel>, body: Seq<char>|
                    state_wf(s) && single_line(state_text(s)) && #[trigger] spec_encode(s, body)
                        == text@ implies false by {
                    lemma_encoded_unframes(text@, s, body);
                    assert(base64_text_of(json_bytes_of(records_of(s))) == payload@);
                }
            }
            return Err(ReadError::CorruptPayload);
        },
    };
    let records = match json_decode(bytes.as_slice()) {
        Ok(v) => v,
        Err(_) => {
            proof {
                assert forall|s: Seq<GroupModel>, body: Seq<char>|
                    state_wf(s) && single_line(state_text(s)) && #[trigger] spec_encode(s, body)
                        == text@ implies false by {
                    lemma_encoded_unframes(text@, s, body);
                    assert(base64_text_of(json_bytes_of(records_of(s))) == payload@);
                    assert(json_bytes_of(records_of(s)) == bytes@);
                }
            }
            return Err(ReadError::CorruptPayload);
        },
    };
    let r = state_from_records(&records);
    proof {
        assert forall|s: Seq<GroupModel>, body: Seq<char>|
            state_wf(s) && single_line(state_text(s)) && #[trigger] spec_encode(s, body) == text@
                implies r is Ok && r->Ok_0@ == s by {
            lemma_encoded_unframes(text@, s, body);
            assert(base64_text_of(json_bytes_of(records_of(s))) == payload@);
            assert(json_bytes_of(records_of(s)) == bytes@);
            assert(records.deep_view() == records_of(s));
            lemma_records_round_trip(s);
        }
    }
    r
}

/// Reads the state out of a configuration file's content; `None` stands for
/// a file that is not there.
pub fn read_artifact(content: Option<&str>) -> (r: Result<AppliedState, ReadError>)
    ensures
        content is None ==> r == Err::<AppliedState, ReadError>(ReadError::NoPriorState),
        content matches Some(t) ==> read_view(r) == spec_read(t@),
{
    match content {
        Some(text) => read_state(text),
        None => Err(ReadError::NoPriorState),
    }
}

/// The state that the next reconciliation starts from: the one the file
/// carries, or the empty state when there is no file yet.
pub fn previous_state(content: Option<&str>) -> (r: Result<AppliedState, ReadError>)
    ensures
        content is None ==> r is Ok && r->Ok_0@ == Seq::<GroupModel>::empty(),
        content matches Some(t) ==> read_view(r) == spec_read(t@),
{
    match read_artifact(content) {
        Err(ReadError::NoPriorState) => Ok(AppliedState::empty()),
        other => other,
    }
}

} // verus!
