//! Datasets: the records of a JSONL file, checked, with the hash of their content.

use crate::hashing::{absorb, content_hash, hash_bytes, is_lower_hex};
use crate::json::{json_read, json_written, read, Json, JsonValue};
use crate::text::{copy_strings, decimal, same_text, to_decimal};
use vstd::prelude::*;
use vstd::string::StringExecFns;
use vstd::utf8::encode_utf8;

verus! {

/// Why the lines of a JSONL file make no dataset. Lines are counted from 0.
#[derive(Debug, PartialEq, Eq)]
pub enum DataError {
    /// A line is not JSON; the message is the reader's.
    Json { line: usize, message: String },
    /// A line holds a JSON value that is no object.
    NotAnObject { line: usize },
    /// A line holds an object whose keys are not those of the first line.
    KeysMismatch { line: usize },
    /// The record of a line could not be written back; the message is the writer's.
    Unwritable { line: usize, message: String },
    /// There is no line at all.
    Empty,
    /// The records do not have the hash that they were stored under.
    HashMismatch { expected: String, found: String },
}

/// The mathematical form of a [`DataError`]. The messages of reader and writer are left out.
pub enum DataFault {
    Json { line: nat },
    NotAnObject { line: nat },
    KeysMismatch { line: nat },
    Unwritable { line: nat },
    Empty,
    HashMismatch { expected: Seq<char>, found: Seq<char> },
}

impl View for DataError {
    type V = DataFault;

    open spec fn view(&self) -> DataFault {
        match self {
            DataError::Json { line, message } => DataFault::Json { line: *line as nat },
            DataError::NotAnObject { line } => DataFault::NotAnObject { line: *line as nat },
            DataError::KeysMismatch { line } => DataFault::KeysMismatch { line: *line as nat },
            DataError::Unwritable { line, message } => DataFault::Unwritable { line: *line as nat },
            DataError::Empty => DataFault::Empty,
            DataError::HashMismatch { expected, found } => DataFault::HashMismatch {
                expected: expected@,
                found: found@,
            },
        }
    }
}

impl DataError {
    /// The message to show for this error.
    pub fn message(&self) -> (m: String)
        ensures
            match self {
                DataError::Json { line, message } => m@ == message@,
                DataError::NotAnObject { line } => m@ == "Line "@ + decimal(*line as nat)
                    + ": Not a JSON object. Only JSON Objects are expected at each line of the JSONL file."@,
                DataError::KeysMismatch { line } => m@ == "Line "@ + decimal(*line as nat)
                    + ": JSON Object has different keys from previous lines."@,
                DataError::Unwritable { line, message } => m@ == message@,
                DataError::Empty => m@ == "The JSONL file holds no record."@,
                DataError::HashMismatch { expected, found } => m@ == "Expected records of hash "@
                    + expected@ + ", found "@ + found@,
            },
    {
        match self {
            DataError::Json { line, message } => message.clone(),
            DataError::NotAnObject { line } => {
                let mut m = String::from_str("Line ");
                let number = to_decimal(*line as u64);
                m.append(number.as_str());
                m.append(
                    ": Not a JSON object. Only JSON Objects are expected at each line of the JSONL file.",
                );
                m
            },
            DataError::KeysMismatch { line } => {
                let mut m = String::from_str("Line ");
                let number = to_decimal(*line as u64);
                m.append(number.as_str());
                m.append(": JSON Object has different keys from previous lines.");
                m
            },
            DataError::Unwritable { line, message } => message.clone(),
            DataError::Empty => String::from_str("The JSONL file holds no record."),
            DataError::HashMismatch { expected, found } => {
                let mut m = String::from_str("Expected records of hash ");
                m.append(expected.as_str());
                m.append(", found ");
                m.append(found.as_str());
                m
            },
        }
    }
}

/// What is wrong with one line.
pub enum LineFault {
    Json,
    NotAnObject,
    KeysMismatch,
    Unwritable,
}

/// The set of the keys in a list.
pub open spec fn key_set(keys: Seq<Seq<char>>) -> Set<Seq<char>> {
    Set::new(|key: Seq<char>| keys.contains(key))
}

/// The keys that every record must have: those of the object on the first line.
pub open spec fn expected_keys(lines: Seq<Seq<char>>) -> Seq<Seq<char>>
    recommends
        lines.len() > 0,
        json_read(lines[0]) is Some,
        json_read(lines[0])->0 is Object,
{
    json_read(lines[0])->0.keys()->0
}

/// What is wrong with line `n`, if anything: it must be JSON, an object, with the keys of the
/// first line, and it must be possible to write it back.
pub open spec fn line_fault(lines: Seq<Seq<char>>, n: int) -> Option<LineFault>
    recommends
        0 <= n < lines.len(),
{
    match json_read(lines[n]) {
        None => Some(LineFault::Json),
        Some(value) => match value.keys() {
            None => Some(LineFault::NotAnObject),
            Some(keys) => if key_set(keys) != key_set(expected_keys(lines)) {
                Some(LineFault::KeysMismatch)
            } else if json_written(value) is None {
                Some(LineFault::Unwritable)
            } else {
                None
            },
        },
    }
}

/// The first line from `from` on with which something is wrong, and what.
pub open spec fn first_fault(lines: Seq<Seq<char>>, from: int) -> Option<(int, LineFault)>
    decreases lines.len() - from,
{
    if from < 0 || from >= lines.len() {
        None
    } else {
        match line_fault(lines, from) {
            Some(fault) => Some((from, fault)),
            None => first_fault(lines, from + 1),
        }
    }
}

/// The records that the lines hold.
pub open spec fn records(lines: Seq<Seq<char>>) -> Seq<Json> {
    Seq::new(lines.len(), |i: int| json_read(lines[i])->0)
}

/// The compact text of each record.
pub open spec fn compact(records: Seq<Json>) -> Seq<Seq<char>> {
    Seq::new(records.len(), |i: int| json_written(records[i])->0)
}

/// The bytes that are hashed for a dataset: the UTF-8 form of each record's compact text, one
/// after the other.
pub open spec fn hashed(texts: Seq<Seq<char>>) -> Seq<u8>
    decreases texts.len(),
{
    if texts.len() == 0 {
        Seq::empty()
    } else {
        hashed(texts.drop_last()) + encode_utf8(texts.last())
    }
}

/// The text of the file that a dataset is stored in: each record's compact text, with a
/// line feed after it.
pub open spec fn jsonl(texts: Seq<Seq<char>>) -> Seq<char>
    decreases texts.len(),
{
    if texts.len() == 0 {
        Seq::empty()
    } else {
        jsonl(texts.drop_last()) + texts.last() + seq!['\n']
    }
}

/// A dataset, in mathematical form.
pub struct Dataset {
    /// The name it is registered under.
    pub id: Seq<char>,
    /// The hash of its content.
    pub hash: Seq<char>,
    /// The keys that each of its records has.
    pub keys: Set<Seq<char>>,
    /// Its records, in order.
    pub points: Seq<Json>,
}

/// What the lines of a JSONL file give. The first line with which something is wrong decides;
/// where there is none, the lines must not be empty, and the dataset holds their records.
pub open spec fn dataset(id: Seq<char>, lines: Seq<Seq<char>>) -> Result<Dataset, DataFault> {
    match first_fault(lines, 0) {
        Some((n, fault)) => Err(
            match fault {
                LineFault::Json => DataFault::Json { line: n as nat },
                LineFault::NotAnObject => DataFault::NotAnObject { line: n as nat },
                LineFault::KeysMismatch => DataFault::KeysMismatch { line: n as nat },
                LineFault::Unwritable => DataFault::Unwritable { line: n as nat },
            },
        ),
        None => if lines.len() == 0 {
            Err(DataFault::Empty)
        } else {
            Ok(
                Dataset {
                    id,
                    hash: content_hash(hashed(compact(records(lines)))),
                    keys: key_set(expected_keys(lines)),
                    points: records(lines),
                },
            )
        },
    }
}

/// The hash of a dataset depends on the lines alone: the same lines give the same hash, the
/// same keys and the same records under whatever name, and they are refused under one name
/// exactly where they are refused under another.
pub proof fn same_lines_same_content(id: Seq<char>, other: Seq<char>, lines: Seq<Seq<char>>)
    ensures
        dataset(id, lines) is Ok <==> dataset(other, lines) is Ok,
        dataset(id, lines) is Ok ==> {
            &&& dataset(id, lines)->Ok_0.hash == dataset(other, lines)->Ok_0.hash
            &&& dataset(id, lines)->Ok_0.keys == dataset(other, lines)->Ok_0.keys
            &&& dataset(id, lines)->Ok_0.points == dataset(other, lines)->Ok_0.points
        },
        dataset(id, lines) is Err ==> dataset(id, lines)->Err_0 == dataset(other, lines)->Err_0,
{
}

proof fn lemma_no_fault(lines: Seq<Seq<char>>, from: int)
    requires
        0 <= from,
        first_fault(lines, from) is None,
    ensures
        forall|k: int| from <= k < lines.len() ==> line_fault(lines, k) is None,
    decreases lines.len() - from,
{
    if from < lines.len() {
        lemma_no_fault(lines, from + 1);
    }
}

/// A dataset depends on the records that its lines hold, not on how the lines spell them:
/// lines that read to the same values give the same dataset, hash and all, and are refused
/// alike.
pub proof fn same_records_same_dataset(id: Seq<char>, a: Seq<Seq<char>>, b: Seq<Seq<char>>)
    requires
        a.len() == b.len(),
        forall|i: int| 0 <= i < a.len() ==> json_read(#[trigger] a[i]) == json_read(b[i]),
    ensures
        dataset(id, a) == dataset(id, b),
{
    lemma_same_faults(a, b, 0);
    if a.len() > 0 {
        assert(json_read(a[0]) == json_read(b[0]));
    }
    assert(records(a) =~= records(b));
}

proof fn lemma_same_faults(a: Seq<Seq<char>>, b: Seq<Seq<char>>, from: int)
    requires
        0 <= from,
        a.len() == b.len(),
        forall|i: int| 0 <= i < a.len() ==> json_read(#[trigger] a[i]) == json_read(b[i]),
    ensures
        first_fault(a, from) == first_fault(b, from),
    decreases a.len() - from,
{
    if from < a.len() {
        assert(json_read(a[0]) == json_read(b[0]));
        assert(json_read(a[from]) == json_read(b[from]));
        lemma_same_faults(a, b, from + 1);
    }
}

/// In a dataset every record is an object with the dataset's keys, and there is at least
/// one record.
pub proof fn dataset_records_share_keys(id: Seq<char>, lines: Seq<Seq<char>>)
    requires
        dataset(id, lines) is Ok,
    ensures
        dataset(id, lines)->Ok_0.points.len() == lines.len(),
        lines.len() > 0,
        forall|i: int|
            0 <= i < lines.len() ==> (#[trigger] dataset(id, lines)->Ok_0.points[i]) is Object
                && key_set(dataset(id, lines)->Ok_0.points[i].keys()->0) == dataset(
                id,
                lines,
            )->Ok_0.keys,
{
    lemma_no_fault(lines, 0);
    assert forall|i: int| 0 <= i < lines.len() implies (#[trigger] dataset(
        id,
        lines,
    )->Ok_0.points[i]) is Object && key_set(dataset(id, lines)->Ok_0.points[i].keys()->0)
        == dataset(id, lines)->Ok_0.keys by {
        assert(line_fault(lines, i) is None);
    }
}

/// Whether a key stands in a list.
fn key_in(key: &str, keys: &Vec<String>) -> (r: bool)
    ensures
        r == keys.deep_view().contains(key@),
{
    let mut j: usize = 0;
    while j < keys.len()
        invariant
            j <= keys.len(),
            forall|k: int| 0 <= k < j ==> keys.deep_view()[k] != key@,
        decreases keys.len() - j,
    {
        if same_text(keys[j].as_str(), key) {
            assert(keys.deep_view()[j as int] == key@);
            return true;
        }
        j += 1;
    }
    false
}

/// Whether each key of `a` stands in `b`.
fn keys_within(a: &Vec<String>, b: &Vec<String>) -> (r: bool)
    ensures
        r == key_set(a.deep_view()).subset_of(key_set(b.deep_view())),
{
    let mut i: usize = 0;
    while i < a.len()
        invariant
            i <= a.len(),
            forall|k: int| 0 <= k < i ==> b.deep_view().contains(#[trigger] a.deep_view()[k]),
        decreases a.len() - i,
    {
        if !key_in(a[i].as_str(), b) {
            assert(key_set(a.deep_view()).contains(a.deep_view()[i as int]));
            return false;
        }
        i += 1;
    }
    assert forall|key: Seq<char>| key_set(a.deep_view()).contains(key) implies key_set(
        b.deep_view(),
    ).contains(key) by {
        let k = choose|k: int| 0 <= k < a.deep_view().len() && a.deep_view()[k] == key;
        assert(b.deep_view().contains(a.deep_view()[k]));
    }
    true
}

/// Whether two lists hold the same set of keys.
pub fn same_keys(a: &Vec<String>, b: &Vec<String>) -> (r: bool)
    ensures
        r == (key_set(a.deep_view()) == key_set(b.deep_view())),
{
    let r = keys_within(a, b) && keys_within(b, a);
    proof {
        if r {
            assert(key_set(a.deep_view()) =~= key_set(b.deep_view()));
        }
    }
    r
}

/// A path below the root of a project: the names to go through, and the extension that the
/// last of them is to be given, if any.
#[derive(Debug, PartialEq, Eq)]
pub struct RelativePath {
    pub components: Vec<String>,
    pub extension: Option<String>,
}

/// Where the versions of the dataset `id` are kept.
pub open spec fn data_dir(id: Seq<char>) -> Seq<Seq<char>> {
    seq![".data"@, id]
}

/// What there is to write to register a dataset.
pub struct Registration {
    /// The directory to write in. It is created where it does not exist.
    pub directory: RelativePath,
    /// The file that takes the records.
    pub jsonl_path: RelativePath,
    /// What that file is to hold.
    pub jsonl: String,
    /// The file that names the current version.
    pub latest_path: RelativePath,
    /// What that file is to hold: the hash.
    pub latest: String,
}

/// A dataset: the records of a JSONL file, each an object with the same keys as the others,
/// and the hash of their content.
pub struct Data {
    id: String,
    hash: String,
    keys: Vec<String>,
    data: Vec<JsonValue>,
    lines: Vec<String>,
}

impl View for Data {
    type V = Dataset;

    closed spec fn view(&self) -> Dataset {
        Dataset {
            id: self.id@,
            hash: self.hash@,
            keys: key_set(self.keys.deep_view()),
            points: self.data.deep_view(),
        }
    }
}

impl Clone for Data {
    fn clone(&self) -> (r: Data)
        ensures
            r@ == self@,
    {
        proof {
            use_type_invariant(self);
        }
        let data = self.data.clone();
        assert(data.deep_view() =~= self.data.deep_view()) by {
            assert forall|i: int| 0 <= i < self.data@.len() implies data@[i]@ == self.data@[i]@ by {
                assert(cloned::<JsonValue>(self.data@[i], data@[i]));
            }
        }
        assert(data@[0]@ == data.deep_view()[0]);
        assert(self.data@[0]@ == self.data.deep_view()[0]);
        assert forall|i: int| 0 <= i < data@.len() implies json_written(#[trigger] data@[i]@) is Some by {
            assert(data@[i]@ == data.deep_view()[i]);
            assert(self.data@[i]@ == self.data.deep_view()[i]);
        }
        assert forall|i: int| 0 <= i < data@.len() implies (#[trigger] data@[i]@.keys()) is Some
            && key_set(data@[i]@.keys()->0) == key_set(self.keys.deep_view()) by {
            assert(data@[i]@ == data.deep_view()[i]);
            assert(self.data@[i]@ == self.data.deep_view()[i]);
        }
        Data {
            id: self.id.clone(),
            hash: self.hash.clone(),
            keys: copy_strings(&self.keys),
            data,
            lines: copy_strings(&self.lines),
        }
    }
}

impl DeepView for Data {
    type V = Dataset;

    open spec fn deep_view(&self) -> Dataset {
        self@
    }
}

impl Data {
    #[verifier::type_invariant]
    spec fn sound(&self) -> bool {
        &&& self.data@.len() > 0
        &&& self.lines.deep_view() == compact(self.data.deep_view())
        &&& forall|i: int|
            0 <= i < self.data@.len() ==> json_written(#[trigger] self.data@[i]@) is Some
        &&& forall|i: int|
            0 <= i < self.data@.len() ==> (#[trigger] self.data@[i]@.keys()) is Some && key_set(
                self.data@[i]@.keys()->0,
            ) == key_set(self.keys.deep_view())
        &&& self.hash@ == content_hash(hashed(self.lines.deep_view()))
        &&& self.keys.deep_view() == self.data@[0]@.keys()->0
        &&& self.hash@.len() == 64
        &&& forall|i: int| 0 <= i < self.hash@.len() ==> is_lower_hex(#[trigger] self.hash@[i])
    }

    /// Checks the record of one line against the keys of the records before it, if there are
    /// any: it must be an object, and its keys must be the same set. The keys of the record
    /// come back.
    pub fn check_record(line: usize, record: &JsonValue, expected: &Option<Vec<String>>) -> (r:
        Result<Vec<String>, DataError>)
        ensures
            match r {
                Ok(keys) => record@.keys() == Some(keys.deep_view()) && (expected matches Some(e)
                    ==> key_set(e.deep_view()) == key_set(keys.deep_view())),
                Err(e) => if record@.keys() is None {
                    e@ == (DataFault::NotAnObject { line: line as nat })
                } else {
                    e@ == (DataFault::KeysMismatch { line: line as nat }) && expected is Some
                        && key_set(expected->0.deep_view()) != key_set(record@.keys()->0)
                },
            },
    {
        let keys = match record.keys() {
            Some(keys) => keys,
            None => {
                return Err(DataError::NotAnObject { line });
            },
        };
        match expected {
            Some(expected) => {
                if !same_keys(expected, &keys) {
                    return Err(DataError::KeysMismatch { line });
                }
            },
            None => {},
        }
        Ok(keys)
    }

    /// Builds a dataset from the lines of a JSONL file, under the name `id`. Each line must
    /// hold one JSON object, and all of them the same keys; there must be a line.
    pub fn new_from_jsonl(id: &str, lines: &Vec<String>) -> (r: Result<Data, DataError>)
        ensures
            match r {
                Ok(data) => dataset(id@, lines.deep_view()) == Ok::<_, DataFault>(data@),
                Err(e) => dataset(id@, lines.deep_view()) == Err::<Dataset, _>(e@),
            },
    {
        let ghost all = lines.deep_view();
        let mut keys: Option<Vec<String>> = None;
        let mut data: Vec<JsonValue> = Vec::new();
        let mut texts: Vec<String> = Vec::new();
        let mut buffer: Vec<u8> = Vec::new();
        let mut i: usize = 0;
        while i < lines.len()
            invariant
                i <= lines.len(),
                all == lines.deep_view(),
                first_fault(all, 0) == first_fault(all, i as int),
                data@.len() == i,
                texts@.len() == i,
                forall|k: int| 0 <= k < i ==> json_read(all[k]) == Some(#[trigger] data@[k]@),
                forall|k: int|
                    0 <= k < i ==> json_written(data@[k]@) == Some(#[trigger] texts@[k]@),
                forall|k: int|
                    0 <= k < i ==> (#[trigger] data@[k]@.keys()) is Some && key_set(
                        data@[k]@.keys()->0,
                    ) == key_set(expected_keys(all)),
                buffer@ == hashed(texts.deep_view()),
                keys is Some <==> i > 0,
                keys matches Some(k) ==> k.deep_view() == expected_keys(all),
            decreases lines.len() - i,
        {
            assert(all[i as int] == lines@[i as int]@);
            let reading = match read(lines[i].as_str()) {
                Ok(reading) => reading,
                Err(message) => {
                    return Err(DataError::Json { line: i, message });
                },
            };
            let record_keys = match Data::check_record(i, reading.value(), &keys) {
                Ok(record_keys) => record_keys,
                Err(e) => {
                    return Err(e);
                },
            };
            if keys.is_none() {
                keys = Some(record_keys);
            }
            let text = match reading.write() {
                Ok(text) => text,
                Err(message) => {
                    return Err(DataError::Unwritable { line: i, message });
                },
            };
            absorb(&mut buffer, text.as_str());
            let ghost before = texts.deep_view();
            texts.push(text);
            data.push(reading.into_value());
            proof {
                assert(texts.deep_view().drop_last() =~= before);
                assert(texts.deep_view().last() == texts@[i as int]@);
            }
            i += 1;
        }
        let keys = match keys {
            Some(keys) => keys,
            None => {
                return Err(DataError::Empty);
            },
        };
        let hash = hash_bytes(buffer.as_slice());
        proof {
            assert(data.deep_view() =~= records(all));
            assert(texts.deep_view() =~= compact(records(all)));
            assert(data@.len() > 0);
            assert(texts.deep_view() == compact(data.deep_view()));
            assert forall|k: int| 0 <= k < data@.len() implies json_written(
                #[trigger] data@[k]@,
            ) is Some by {
                assert(json_written(data@[k]@) == Some(texts@[k]@));
            }
            assert(hash@ == content_hash(hashed(texts.deep_view())));
            assert(forall|k: int|
                0 <= k < data@.len() ==> (#[trigger] data@[k]@.keys()) is Some && key_set(
                    data@[k]@.keys()->0,
                ) == key_set(keys.deep_view()));
        }
        Ok(Data { id: String::from_str(id), hash, keys, data, lines: texts })
    }
}

impl Data {
    /// The number of records. There is at least one.
    pub fn len(&self) -> (n: usize)
        ensures
            n == self@.points.len(),
            n > 0,
    {
        proof {
            use_type_invariant(self);
        }
        self.data.len()
    }

    /// The records, in order.
    pub fn iter(&self) -> (records: std::slice::Iter<'_, JsonValue>)
        ensures
            vstd::std_specs::slice::into_iter_elts(records).map_values(|v: JsonValue| v@) == self@.points,
    {
        let slice = self.data.as_slice();
        let records = slice.iter();
        proof {
            vstd::std_specs::slice::axiom_spec_slice_iter(slice);
            assert(vstd::std_specs::slice::into_iter_elts(records) =~= self.data@);
        }
        records
    }

    /// The name that the dataset is registered under.
    pub fn id(&self) -> (id: &String)
        ensures
            id@ == self@.id,
    {
        &self.id
    }

    /// The hash of the dataset's content: 64 lowercase hexadecimal digits.
    pub fn hash(&self) -> (hash: &String)
        ensures
            hash@ == self@.hash,
            hash@.len() == 64,
            forall|i: int| 0 <= i < hash@.len() ==> is_lower_hex(#[trigger] hash@[i]),
    {
        proof {
            use_type_invariant(self);
        }
        &self.hash
    }

    /// The keys that each record has, as the first record lists them.
    pub fn keys(&self) -> (keys: &Vec<String>)
        ensures
            keys.deep_view() == self@.points[0].keys()->0,
            key_set(keys.deep_view()) == self@.keys,
    {
        proof {
            use_type_invariant(self);
        }
        &self.keys
    }

    /// The directory of the dataset `id`, below the root of the project.
    pub fn data_path(id: &str) -> (p: RelativePath)
        ensures
            p.components.deep_view() == data_dir(id@),
            p.extension is None,
    {
        let mut components: Vec<String> = Vec::new();
        components.push(String::from_str(".data"));
        components.push(String::from_str(id));
        assert(components.deep_view() =~= data_dir(id@));
        RelativePath { components, extension: None }
    }

    /// The file that names the current version of the dataset `id`.
    pub fn latest_path(id: &str) -> (p: RelativePath)
        ensures
            p.components.deep_view() == data_dir(id@).push("latest"@),
            p.extension is None,
    {
        let mut components: Vec<String> = Vec::new();
        components.push(String::from_str(".data"));
        components.push(String::from_str(id));
        components.push(String::from_str("latest"));
        assert(components.deep_view() =~= data_dir(id@).push("latest"@));
        RelativePath { components, extension: None }
    }

    /// The file that holds the version `hash` of the dataset `id`: it is named by the hash,
    /// with the extension `jsonl`.
    pub fn jsonl_path(id: &str, hash: &str) -> (p: RelativePath)
        ensures
            p.components.deep_view() == data_dir(id@).push(hash@),
            p.extension matches Some(e) && e@ == "jsonl"@,
    {
        let mut components: Vec<String> = Vec::new();
        components.push(String::from_str(".data"));
        components.push(String::from_str(id));
        components.push(String::from_str(hash));
        assert(components.deep_view() =~= data_dir(id@).push(hash@));
        RelativePath { components, extension: Some(String::from_str("jsonl")) }
    }

    /// Builds the dataset that is stored under `hash` from the lines of its file. The records
    /// must have that hash.
    pub fn new_from_hash(id: &str, hash: &str, lines: &Vec<String>) -> (r: Result<Data, DataError>)
        ensures
            match dataset(id@, lines.deep_view()) {
                Err(fault) => r matches Err(e) && e@ == fault,
                Ok(found) => if found.hash == hash@ {
                    r matches Ok(data) && data@ == found
                } else {
                    r matches Err(e) && e@ == (DataFault::HashMismatch {
                        expected: hash@,
                        found: found.hash,
                    })
                },
            },
    {
        let data = match Data::new_from_jsonl(id, lines) {
            Ok(data) => data,
            Err(e) => {
                return Err(e);
            },
        };
        if same_text(data.hash.as_str(), hash) {
            Ok(data)
        } else {
            Err(
                DataError::HashMismatch {
                    expected: String::from_str(hash),
                    found: data.hash.clone(),
                },
            )
        }
    }

    /// What there is to write to register the dataset: its records, one a line, in the file
    /// that its hash names, and the hash in the file that names the current version.
    pub fn register(&self) -> (r: Registration)
        ensures
            r.directory.components.deep_view() == data_dir(self@.id),
            r.directory.extension is None,
            r.jsonl_path.components.deep_view() == data_dir(self@.id).push(self@.hash),
            r.jsonl_path.extension matches Some(e) && e@ == "jsonl"@,
            r.jsonl@ == jsonl(compact(self@.points)),
            r.latest_path.components.deep_view() == data_dir(self@.id).push("latest"@),
            r.latest_path.extension is None,
            r.latest@ == self@.hash,
    {
        proof {
            use_type_invariant(self);
        }
        let mut contents = String::new();
        let mut i: usize = 0;
        let ghost texts = self.lines.deep_view();
        while i < self.lines.len()
            invariant
                i <= self.lines.len(),
                texts == self.lines.deep_view(),
                contents@ == jsonl(texts.take(i as int)),
            decreases self.lines.len() - i,
        {
            proof {
                assert(texts.take(i + 1).drop_last() == texts.take(i as int));
                assert(texts.take(i + 1).last() == self.lines@[i as int]@);
                reveal_strlit("\n");
                assert("\n"@ =~= seq!['\n']);
            }
            contents.append(self.lines[i].as_str());
            contents.append("\n");
            i += 1;
        }
        assert(texts.take(i as int) == texts);
        Registration {
            directory: Data::data_path(self.id.as_str()),
            jsonl_path: Data::jsonl_path(self.id.as_str(), self.hash.as_str()),
            jsonl: contents,
            latest_path: Data::latest_path(self.id.as_str()),
            latest: self.hash.clone(),
        }
    }

    /// The records as one JSON array.
    pub fn data_as_value(&self) -> (v: JsonValue)
        ensures
            v@ == Json::Array(self@.points),
    {
        let mut copies: Vec<JsonValue> = Vec::new();
        let mut i: usize = 0;
        while i < self.data.len()
            invariant
                i <= self.data.len(),
                copies@.len() == i,
                forall|k: int| 0 <= k < i ==> (#[trigger] copies@[k])@ == self.data@[k]@,
            decreases self.data.len() - i,
        {
            copies.push(self.data[i].clone());
            i += 1;
        }
        let v = JsonValue::Array(copies);
        assert(v@->Array_0 =~= self.data.deep_view());
        v
    }
}

} // verus!
