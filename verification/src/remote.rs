//! Reading the structure of a checkpoint through another machine, which opens it and
//! reports its tensors as JSON.
use vstd::prelude::*;

use crate::filter::{to_upper, uppercase};
use crate::header::{count_elements, element_count, natural_numbers, naturals, only_entry};
use crate::inputs::begins_with;
use crate::json::{json_literal, json_models, json_value, law_members_are_found, parse_json, string_literal};
use crate::json::{Json, JsonModel};
use crate::plain::{decode_lossy, lossy_text};
use crate::text::{chars_of, lines, lines_of, matches_at, replace, replaced, same, substring, texts};
use crate::tree::{Layout, LayoutModel, Storage, StorageModel, TensorInfo, TensorModel};

verus! {

/// What the report's line begins with, so that it is told apart from anything else that
/// the machine writes.
pub const SENTINEL: &'static str = "CKPT_EXPLORER_META:";

/// The machine that reads a checkpoint, and the environment that it reads it in.
#[derive(Debug)]
pub struct RemoteRead {
    pub host: String,
    pub venv: String,
}

impl RemoteRead {
    pub fn new(host: String, venv: String) -> (r: RemoteRead)
        ensures
            r.host@ == host@,
            r.venv@ == venv@,
    {
        RemoteRead { host, venv }
    }

    /// The command that the machine runs; it reads the script from its input.
    pub fn command(&self) -> (r: String)
        ensures
            r@ == "source "@ + self.venv@ + "/bin/activate && exec python3 -"@,
    {
        "source ".to_owned().concat(self.venv.as_str()).concat("/bin/activate && exec python3 -")
    }
}

// ---------------------------------------------------------------------------
// The script

/// The script, with marks for the checkpoint and the report's first word.
pub const TEMPLATE: &'static str = "
import sys, json
URI = __URI__
S = \"__SENTINEL__\"
def emit(obj):
    sys.stdout.write(S + json.dumps(obj) + \"\\n\")
    sys.stdout.flush()
try:
    import cerebras.pytorch as cstorch
except Exception as e:
    emit({\"error\": \"import cerebras.pytorch failed: %r\" % (e,)}); sys.exit(0)
try:
    sd = cstorch.load(URI, map_location=None)   # lazy: metadata only, no data
except Exception as e:
    emit({\"error\": \"cstorch.load failed: %r\" % (e,)}); sys.exit(0)
try:
    keys = list(sd.keys())
except Exception as e:
    emit({\"error\": \"listing keys failed: %r\" % (e,)}); sys.exit(0)
tensors, meta = [], []
for name in keys:
    try:
        t = sd[name]
        shape = [int(d) for d in t.shape]
        dtype = str(getattr(t, \"dtype\", \"\"))
        try:
            itemsize = int(t.element_size())
        except Exception:
            itemsize = 0
        tensors.append({\"name\": str(name), \"dtype\": dtype, \"shape\": shape, \"itemsize\": itemsize})
    except Exception:
        meta.append({\"name\": str(name)})
emit({\"tensors\": tensors, \"metadata\": meta})
";

/// The script for a checkpoint whose address is written as `literal`.
pub open spec fn script_for(literal: Seq<char>) -> Seq<char> {
    replaced(replaced(TEMPLATE@, "__URI__"@, literal), "__SENTINEL__"@, SENTINEL@)
}

/// Fill the address of a checkpoint, written as a string literal, into the script.
pub fn fill_script(literal: &str) -> (r: String)
    ensures
        r@ == script_for(literal@),
{
    proof {
        reveal_strlit("__URI__");
        reveal_strlit("__SENTINEL__");
    }
    let filled = replace(TEMPLATE, "__URI__", literal);
    replace(filled.as_str(), "__SENTINEL__", SENTINEL)
}

/// The script that reports a checkpoint's tensors. The address is written into it as a
/// JSON string literal.
pub fn dump_script(uri: &str) -> (r: String)
    ensures
        r@ == script_for(json_literal(uri@)),
{
    let literal = string_literal(uri);
    fill_script(literal.as_str())
}

// ---------------------------------------------------------------------------
// The report

/// The last of the first `n` lines that begins with a word, without that word.
pub open spec fn last_report(ls: Seq<Seq<char>>, word: Seq<char>, n: int) -> Option<Seq<char>>
    decreases n,
{
    if n <= 0 {
        None
    } else if begins_with(ls[n - 1], word) {
        Some(ls[n - 1].skip(word.len() as int))
    } else {
        last_report(ls, word, n - 1)
    }
}

/// The report in what a machine wrote: the last line that begins with the report's word.
pub fn report_in(output: &str) -> (r: Option<String>)
    ensures
        match r {
            Some(s) => last_report(lines_of(output@), SENTINEL@, lines_of(output@).len() as int)
                == Some(s@),
            None => last_report(lines_of(output@), SENTINEL@, lines_of(output@).len() as int) is None,
        },
{
    let all = lines(output);
    let word = chars_of(SENTINEL);
    let ghost ls = lines_of(output@);
    let mut n: usize = all.len();
    while n > 0
        invariant
            n <= all.len(),
            texts(all@) == ls,
            ls == lines_of(output@),
            word@ == SENTINEL@,
            last_report(ls, SENTINEL@, n as int) == last_report(ls, SENTINEL@, ls.len() as int),
        decreases n,
    {
        proof {
            assert(ls[n - 1] == all@[n - 1]@);
        }
        let line = chars_of(all[n - 1].as_str());
        if matches_at(&line, &word, 0) {
            let rest = substring(&line, word.len(), line.len());
            proof {
                assert(rest@ =~= ls[n - 1].skip(word@.len() as int));
            }
            return Some(rest);
        }
        n = n - 1;
    }
    None
}

/// What a dtype is called by the library.
pub open spec fn dtype_for(name: Seq<char>) -> Option<Seq<char>> {
    if name == "float16"@ {
        Some("F16"@)
    } else if name == "bfloat16"@ {
        Some("BF16"@)
    } else if name == "float32"@ {
        Some("F32"@)
    } else if name == "float64"@ {
        Some("F64"@)
    } else if name == "float8_e4m3fn"@ {
        Some("F8_E4M3"@)
    } else if name == "float8_e5m2"@ {
        Some("F8_E5M2"@)
    } else if name == "int8"@ {
        Some("I8"@)
    } else if name == "uint8"@ {
        Some("U8"@)
    } else if name == "int16"@ {
        Some("I16"@)
    } else if name == "uint16"@ {
        Some("U16"@)
    } else if name == "int32"@ {
        Some("I32"@)
    } else if name == "uint32"@ {
        Some("U32"@)
    } else if name == "int64"@ {
        Some("I64"@)
    } else if name == "uint64"@ {
        Some("U64"@)
    } else if name == "bool"@ {
        Some("BOOL"@)
    } else {
        None
    }
}

/// A dtype without the name of its module.
pub open spec fn bare_dtype(torch: Seq<char>) -> Seq<char> {
    if begins_with(torch, "torch."@) {
        torch.skip(6)
    } else {
        torch
    }
}

/// What a dtype is called by the library; one that it does not know in upper case.
pub open spec fn mapped_dtype(torch: Seq<char>) -> Seq<char> {
    match dtype_for(bare_dtype(torch)) {
        Some(d) => d,
        None => uppercase(bare_dtype(torch)),
    }
}

/// What a dtype such as `torch.float16` is called by the library.
pub fn map_dtype(torch: &str) -> (r: String)
    ensures
        r@ == mapped_dtype(torch@),
{
    let v = chars_of(torch);
    let prefix = chars_of("torch.");
    proof {
        reveal_strlit("torch.");
    }
    let bare = if matches_at(&v, &prefix, 0) {
        substring(&v, 6, v.len())
    } else {
        torch.to_owned()
    };
    proof {
        assert(bare@ =~= bare_dtype(torch@));
    }
    let s = bare.as_str();
    let name: &'static str = if same(s, "float16") {
        "F16"
    } else if same(s, "bfloat16") {
        "BF16"
    } else if same(s, "float32") {
        "F32"
    } else if same(s, "float64") {
        "F64"
    } else if same(s, "float8_e4m3fn") {
        "F8_E4M3"
    } else if same(s, "float8_e5m2") {
        "F8_E5M2"
    } else if same(s, "int8") {
        "I8"
    } else if same(s, "uint8") {
        "U8"
    } else if same(s, "int16") {
        "I16"
    } else if same(s, "uint16") {
        "U16"
    } else if same(s, "int32") {
        "I32"
    } else if same(s, "uint32") {
        "U32"
    } else if same(s, "int64") {
        "I64"
    } else if same(s, "uint64") {
        "U64"
    } else if same(s, "bool") {
        "BOOL"
    } else {
        return to_upper(s);
    };
    name.to_owned()
}

/// The text under a key, or nothing.
pub open spec fn text_or_empty(j: JsonModel, key: Seq<char>) -> Seq<char> {
    match j.text_at(key) {
        Some(s) => s,
        None => Seq::empty(),
    }
}

/// The shape that a report gives to a tensor.
pub open spec fn reported_shape(j: JsonModel) -> Seq<usize> {
    match j.list_at("shape"@) {
        Some(items) => naturals(items),
        None => Seq::empty(),
    }
}

/// How many bytes an element takes.
pub open spec fn reported_item(j: JsonModel) -> usize {
    match j.get("itemsize"@) {
        Some(v) => match v.as_u64() {
            Some(n) => n as usize,
            None => 0,
        },
        None => 0,
    }
}

/// A tensor that a report describes. What it leaves out is empty.
pub open spec fn reported_tensor(j: JsonModel, uri: Seq<char>) -> TensorModel {
    TensorModel {
        name: text_or_empty(j, "name"@),
        dtype: mapped_dtype(text_or_empty(j, "dtype"@)),
        shape: reported_shape(j),
        size_bytes: element_count(reported_shape(j)).wrapping_mul(reported_item(j)),
        num_elements: element_count(reported_shape(j)),
        storage: StorageModel::Unknown,
        source_path: uri,
        layout: LayoutModel::Untracked,
    }
}

/// The tensors that a report describes, or why there are none.
pub open spec fn tensors_reported(report: Option<JsonModel>, uri: Seq<char>) -> Result<
    Seq<TensorModel>,
    Seq<char>,
> {
    match report {
        None => Err("parsing the remote metadata JSON"@),
        Some(v) => match v.text_at("error"@) {
            Some(e) => Err("remote: "@ + e),
            None => match v.list_at("tensors"@) {
                Some(items) if items.len() > 0 => Ok(
                    items.map_values(|j: JsonModel| reported_tensor(j, uri)),
                ),
                _ => Err("the remote returned no tensors for "@ + uri),
            },
        },
    }
}

fn read_tensor(j: &Json, uri: &str) -> (t: TensorInfo)
    ensures
        t.deep_view() == reported_tensor(j.model(), uri@),
{
    let name = match j.text_at("name") {
        Some(s) => s.to_owned(),
        None => String::new(),
    };
    let dtype = match j.text_at("dtype") {
        Some(s) => map_dtype(s),
        None => map_dtype(""),
    };
    proof {
        reveal_strlit("");
        assert(""@ =~= Seq::empty());
    }
    let shape = match j.list_at("shape") {
        Some(items) => natural_numbers(items),
        None => Vec::new(),
    };
    let item: usize = match j.get("itemsize") {
        Some(v) => match v.as_u64() {
            Some(n) => n as usize,
            None => 0,
        },
        None => 0,
    };
    let num_elements: usize = count_elements(&shape);
    proof {
        assert(shape@ =~= reported_shape(j.model()));
    }
    TensorInfo {
        name,
        dtype,
        shape,
        size_bytes: num_elements.wrapping_mul(item),
        num_elements,
        storage: Storage::Unknown,
        source_path: uri.to_owned(),
        layout: Layout::Untracked,
    }
}

/// Read the tensors out of a report that was parsed.
pub fn read_report(report: &Option<Json>, uri: &str) -> (r: Result<Vec<TensorInfo>, String>)
    ensures
        ({
            let parsed = match *report {
                Some(j) => Some(j.model()),
                None => None,
            };
            match r {
                Ok(ts) => tensors_reported(parsed, uri@) == Ok::<Seq<TensorModel>, Seq<char>>(
                    ts.deep_view(),
                ),
                Err(e) => tensors_reported(parsed, uri@) == Err::<Seq<TensorModel>, Seq<char>>(e@),
            }
        }),
{
    let v = match report {
        Some(v) => v,
        None => {
            return Err("parsing the remote metadata JSON".to_owned());
        },
    };
    if let Some(e) = v.text_at("error") {
        return Err("remote: ".to_owned().concat(e));
    }
    let mut r: Vec<TensorInfo> = Vec::new();
    if let Some(items) = v.list_at("tensors") {
        let ghost all = json_models(items@);
        let ghost want = all.map_values(|j: JsonModel| reported_tensor(j, uri@));
        let mut i: usize = 0;
        while i < items.len()
            invariant
                i <= items.len(),
                all == json_models(items@),
                want == all.map_values(|j: JsonModel| reported_tensor(j, uri@)),
                r.deep_view() =~= want.take(i as int),
            decreases items.len() - i,
        {
            let t = read_tensor(&items[i], uri);
            proof {
                assert(all[i as int] == items@[i as int].model());
                assert(want[i as int] == t.deep_view());
            }
            let ghost had = r.deep_view();
            r.push(t);
            proof {
                assert(r.deep_view() =~= had.push(t.deep_view()));
                assert(want.take(i + 1) =~= want.take(i as int).push(want[i as int]));
            }
            i = i + 1;
        }
        proof {
            assert(r.deep_view() =~= want);
        }
        if items.len() > 0 {
            return Ok(r);
        }
    }
    Err("the remote returned no tensors for ".to_owned().concat(uri))
}

/// The tensors that a report in JSON describes, with the address of the checkpoint as
/// their file.
pub fn parse_dump(json: &str, uri: &str) -> (r: Result<Vec<TensorInfo>, String>)
    ensures
        ({
            let parsed = json_value(vstd::utf8::encode_utf8(json@));
            match r {
                Ok(ts) => tensors_reported(parsed, uri@) == Ok::<Seq<TensorModel>, Seq<char>>(
                    ts.deep_view(),
                ),
                Err(e) => tensors_reported(parsed, uri@) == Err::<Seq<TensorModel>, Seq<char>>(e@),
            }
        }),
{
    let parsed = parse_json(json.as_bytes());
    read_report(&parsed, uri)
}

/// What is read from all that a machine wrote: the tensors, or why there are none.
pub open spec fn output_read(output: Seq<char>, host: Seq<char>, uri: Seq<char>) -> Result<
    Seq<TensorModel>,
    Seq<char>,
> {
    match last_report(lines_of(output), SENTINEL@, lines_of(output).len() as int) {
        None => Err("no metadata returned from "@ + host + " (see any error above)"@),
        Some(json) => tensors_reported(json_value(vstd::utf8::encode_utf8(json)), uri),
    }
}

impl RemoteRead {
    /// Read the tensors out of what the machine wrote.
    pub fn read_output(&self, output: &[u8], uri: &str) -> (r: Result<Vec<TensorInfo>, String>)
        ensures
            match r {
                Ok(ts) => output_read(lossy_text(output@), self.host@, uri@) == Ok::<
                    Seq<TensorModel>,
                    Seq<char>,
                >(ts.deep_view()),
                Err(e) => output_read(lossy_text(output@), self.host@, uri@) == Err::<
                    Seq<TensorModel>,
                    Seq<char>,
                >(e@),
            },
    {
        let text = decode_lossy(output);
        match report_in(text.as_str()) {
            None => Err(
                "no metadata returned from ".to_owned().concat(self.host.as_str()).concat(
                    " (see any error above)",
                ),
            ),
            Some(json) => parse_dump(json.as_str(), uri),
        }
    }
}

// ---------------------------------------------------------------------------
// What is read of a report

/// A dtype that the library knows is called the same with and without the name of its
/// module; any other is shown in upper case.
pub proof fn law_dtypes_are_mapped(name: Seq<char>)
    requires
        !begins_with(name, "torch."@),
    ensures
        mapped_dtype("torch."@ + name) == mapped_dtype(name),
        name == "float16"@ ==> mapped_dtype(name) == "F16"@,
        name == "bfloat16"@ ==> mapped_dtype(name) == "BF16"@,
        name == "float32"@ ==> mapped_dtype(name) == "F32"@,
        name == "float64"@ ==> mapped_dtype(name) == "F64"@,
        name == "float8_e4m3fn"@ ==> mapped_dtype(name) == "F8_E4M3"@,
        name == "float8_e5m2"@ ==> mapped_dtype(name) == "F8_E5M2"@,
        name == "int8"@ ==> mapped_dtype(name) == "I8"@,
        name == "uint8"@ ==> mapped_dtype(name) == "U8"@,
        name == "int16"@ ==> mapped_dtype(name) == "I16"@,
        name == "uint16"@ ==> mapped_dtype(name) == "U16"@,
        name == "int32"@ ==> mapped_dtype(name) == "I32"@,
        name == "uint32"@ ==> mapped_dtype(name) == "U32"@,
        name == "int64"@ ==> mapped_dtype(name) == "I64"@,
        name == "uint64"@ ==> mapped_dtype(name) == "U64"@,
        name == "bool"@ ==> mapped_dtype(name) == "BOOL"@,
{
    reveal_strlit("torch.");
    let full = "torch."@ + name;
    assert(full.subrange(0, 6) =~= "torch."@);
    assert(begins_with(full, "torch."@));
    assert(full.skip(6) =~= name);
    reveal_strlit("float16");
    reveal_strlit("bfloat16");
    reveal_strlit("float32");
    reveal_strlit("float64");
    reveal_strlit("float8_e4m3fn");
    reveal_strlit("float8_e5m2");
    reveal_strlit("int8");
    reveal_strlit("uint8");
    reveal_strlit("int16");
    reveal_strlit("uint16");
    reveal_strlit("int32");
    reveal_strlit("uint32");
    reveal_strlit("int64");
    reveal_strlit("uint64");
    reveal_strlit("bool");
    assert("float16"@[5] == '1' && "float32"@[5] == '3' && "float64"@[5] == '6');
    assert("int16"@[3] == '1' && "int32"@[3] == '3' && "int64"@[3] == '6');
    assert("uint16"@[4] == '1' && "uint32"@[4] == '3' && "uint64"@[4] == '6');
    assert("int8"@[0] == 'i' && "bool"@[0] == 'b');
    assert("uint8"@[0] == 'u' && "int16"@[0] == 'i');
}

/// A reported tensor has the name and the dtype that the report gives under `name` and
/// `dtype`, the numbers under `shape` as its shape, and as its size its elements times
/// what is given under `itemsize`.
pub proof fn law_reports_are_read_whole(
    members: Seq<(Seq<char>, JsonModel)>,
    text: Seq<char>,
    uri: Seq<char>,
)
    ensures
        ({
            let t = reported_tensor(JsonModel::Object(members, text), uri);
            &&& t.source_path == uri
            &&& forall|i: int|
                #[trigger] only_entry(members, "name"@, i) && members[i].1 is Text ==> t.name
                    == members[i].1->Text_0
            &&& forall|i: int|
                #[trigger] only_entry(members, "dtype"@, i) && members[i].1 is Text ==> t.dtype
                    == mapped_dtype(members[i].1->Text_0)
            &&& forall|i: int|
                #[trigger] only_entry(members, "shape"@, i) && members[i].1 is List ==> t.shape
                    == naturals(members[i].1->List_0) && t.num_elements == element_count(t.shape)
            &&& forall|i: int|
                #[trigger] only_entry(members, "itemsize"@, i) && members[i].1 is Number
                    && members[i].1->Number_0 is Some && t.num_elements
                    * members[i].1->Number_0->0 <= usize::MAX && members[i].1->Number_0->0
                    <= usize::MAX ==> t.size_bytes == t.num_elements * members[i].1->Number_0->0
        }),
{
    law_members_are_found(members, text, "name"@);
    law_members_are_found(members, text, "dtype"@);
    law_members_are_found(members, text, "shape"@);
    law_members_are_found(members, text, "itemsize"@);
    let j = JsonModel::Object(members, text);
    let t = reported_tensor(j, uri);
    assert forall|i: int|
        #[trigger] only_entry(members, "itemsize"@, i) && members[i].1 is Number
            && members[i].1->Number_0 is Some && t.num_elements * members[i].1->Number_0->0
            <= usize::MAX && members[i].1->Number_0->0 <= usize::MAX implies t.size_bytes
        == t.num_elements * members[i].1->Number_0->0 by {
        assert(members[i].0 == "itemsize"@);
        assert(j.get("itemsize"@) == Some(members[i].1));
        let (x, y): (usize, usize) = (t.num_elements, members[i].1->Number_0->0 as usize);
        assert(x * y >= 0) by (nonlinear_arith)
            requires
                x >= 0,
                y >= 0,
        ;
        vstd::arithmetic::div_mod::lemma_small_mod((x * y) as nat, (usize::MAX + 1) as nat);
        assert(x as nat * y as nat == x * y);
    }
    assert forall|i: int| #[trigger] only_entry(members, "name"@, i) implies j.get("name"@) == Some(
        members[i].1,
    ) by {
        assert(members[i].0 == "name"@);
    }
    assert forall|i: int| #[trigger] only_entry(members, "dtype"@, i) implies j.get("dtype"@)
        == Some(members[i].1) by {
        assert(members[i].0 == "dtype"@);
    }
    assert forall|i: int| #[trigger] only_entry(members, "shape"@, i) implies j.get("shape"@)
        == Some(members[i].1) by {
        assert(members[i].0 == "shape"@);
    }
}

/// The report is the last line that begins with the report's word: no later line does,
/// and the word is cut off.
pub proof fn law_last_report_counts(ls: Seq<Seq<char>>, word: Seq<char>, n: int)
    requires
        0 <= n <= ls.len(),
    ensures
        last_report(ls, word, n) is None <==> forall|i: int|
            0 <= i < n ==> !begins_with(#[trigger] ls[i], word),
        last_report(ls, word, n) matches Some(json) ==> exists|i: int|
            0 <= i < n && begins_with(#[trigger] ls[i], word) && ls[i] == word + json && forall|j: int|
                i < j < n ==> !begins_with(#[trigger] ls[j], word),
    decreases n,
{
    if n > 0 {
        if begins_with(ls[n - 1], word) {
            let l = ls[n - 1];
            assert(l =~= word + l.skip(word.len() as int));
        } else {
            law_last_report_counts(ls, word, n - 1);
        }
    }
}

/// A report of tensors gives each of them in its order; one of an error gives the error.
pub proof fn law_reports_give_every_tensor(v: JsonModel, uri: Seq<char>, i: int)
    requires
        v.get("tensors"@) is Some,
        v.get("tensors"@)->0 is List,
        0 <= i < v.get("tensors"@)->0->List_0.len(),
    ensures
        v.get("error"@) is None ==> ({
            let r = tensors_reported(Some(v), uri);
            &&& r is Ok
            &&& r->Ok_0.len() == v.get("tensors"@)->0->List_0.len()
            &&& r->Ok_0[i] == reported_tensor(v.get("tensors"@)->0->List_0[i], uri)
        }),
        v.get("error"@) is Some && v.get("error"@)->0 is Text ==> tensors_reported(Some(v), uri)
            == Err::<Seq<TensorModel>, Seq<char>>("remote: "@ + v.get("error"@)->0->Text_0),
        tensors_reported(None, uri) is Err,
{
}

/// What a remote prints is read from its last report; without one, nothing was returned.
pub proof fn law_output_is_read_from_its_report(
    before: Seq<char>,
    host: Seq<char>,
    uri: Seq<char>,
)
    ensures
        (forall|i: int|
            0 <= i < lines_of(before).len() ==> !begins_with(
                #[trigger] lines_of(before)[i],
                SENTINEL@,
            )) ==> output_read(before, host, uri) == Err::<Seq<TensorModel>, Seq<char>>(
            "no metadata returned from "@ + host + " (see any error above)"@,
        ),
        output_read(before, host, uri) is Ok ==> exists|i: int|
            0 <= i < lines_of(before).len() && begins_with(#[trigger] lines_of(before)[i], SENTINEL@)
                && output_read(before, host, uri) == tensors_reported(
                json_value(
                    vstd::utf8::encode_utf8(lines_of(before)[i].skip(SENTINEL@.len() as int)),
                ),
                uri,
            ),
{
    let ls = lines_of(before);
    law_last_report_counts(ls, SENTINEL@, ls.len() as int);
    if output_read(before, host, uri) is Ok {
        let json = last_report(ls, SENTINEL@, ls.len() as int)->0;
        let i = choose|i: int|
            0 <= i < ls.len() && begins_with(#[trigger] ls[i], SENTINEL@) && ls[i] == SENTINEL@ + json
                && forall|j: int| i < j < ls.len() ==> !begins_with(#[trigger] ls[j], SENTINEL@);
        assert(ls[i].skip(SENTINEL@.len() as int) =~= json);
    }
}

} // verus!
