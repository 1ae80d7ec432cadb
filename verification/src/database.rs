//! The per-schema database: a symbol table interning identifier text to
//! stable integer ids, a resolved flag per id, a snapshot of the table as it
//! stood at load time, and the registered messages. One instance exists per
//! schema; ids are never valid across schemas.

use vstd::prelude::*;
use vstd::string::StrSliceExecFns;

use crate::prototype::{ProtoField, ProtoFieldKind, ProtoMessage, ProtoName, ProtoType};

verus! {

/// The mathematical content of one message: its name and its fields in
/// declaration order.
#[verifier::ext_equal]
pub struct MessageView {
    pub name: ProtoName,
    pub fields: Seq<ProtoField>,
}

impl View for ProtoMessage {
    type V = MessageView;

    open spec fn view(&self) -> MessageView {
        MessageView { name: self.name, fields: self.fields@ }
    }
}

/// The mathematical content of a schema database: per id the current bound
/// text, the text bound at load time, and the resolved flag; plus the
/// registered messages.
#[verifier::ext_equal]
pub struct DbView {
    pub names: Seq<Seq<char>>,
    pub original: Seq<Seq<char>>,
    pub resolved: Seq<bool>,
    pub messages: Seq<MessageView>,
}

impl DbView {
    /// The id is one the table has issued.
    pub open spec fn id_in_range(self, id: int) -> bool {
        0 <= id < self.names.len()
    }

    /// A type mentions only issued ids.
    pub open spec fn type_wf(self, t: ProtoType) -> bool {
        t.is_reference() ==> self.id_in_range(t.ref_id())
    }

    /// A field kind mentions only issued ids.
    pub open spec fn kind_wf(self, k: ProtoFieldKind) -> bool {
        match k {
            ProtoFieldKind::Scalar(a) => self.type_wf(a),
            ProtoFieldKind::Mapping(a, b) => self.type_wf(a) && self.type_wf(b),
            ProtoFieldKind::Repeated(a) => self.type_wf(a),
        }
    }

    /// A field mentions only issued ids.
    pub open spec fn field_wf(self, f: ProtoField) -> bool {
        &&& self.id_in_range(f.name.id as int)
        &&& self.kind_wf(f.field_type)
    }

    /// A message mentions only issued ids.
    pub open spec fn msg_wf(self, m: MessageView) -> bool {
        &&& self.id_in_range(m.name.id as int)
        &&& forall|i: int| 0 <= i < m.fields.len() ==> self.field_wf(#[trigger] m.fields[i])
    }

    /// Well-formedness of the database: the three per-id columns have the same
    /// length, and every registered message mentions only issued ids.
    pub open spec fn wf(self) -> bool {
        &&& self.original.len() == self.names.len()
        &&& self.resolved.len() == self.names.len()
        &&& forall|i: int|
            0 <= i < self.messages.len() ==> self.msg_wf(#[trigger] self.messages[i])
    }

    /// Whether the id is marked resolved; an id the table never issued counts
    /// as unresolved.
    pub open spec fn rsv(self, id: int) -> bool {
        0 <= id < self.resolved.len() && self.resolved[id]
    }

    /// Whether the name's id is marked resolved.
    pub open spec fn name_resolved(self, n: ProtoName) -> bool {
        self.rsv(n.id as int)
    }

    /// The text currently bound to the name's id.
    pub open spec fn text_of(self, n: ProtoName) -> Seq<char> {
        self.names[n.id as int]
    }

    /// Some issued id is currently bound to this text.
    pub open spec fn has_text(self, t: Seq<char>) -> bool {
        exists|i: int| 0 <= i < self.names.len() && self.names[i] == t
    }

    /// `id` is the lowest issued id currently bound to this text.
    pub open spec fn is_first_id_of(self, t: Seq<char>, id: int) -> bool {
        &&& 0 <= id < self.names.len()
        &&& self.names[id] == t
        &&& forall|j: int| 0 <= j < id ==> self.names[j] != t
    }

    /// `i` is the position of the first registered message whose name is `n`.
    pub open spec fn is_first_msg_with_name(self, n: ProtoName, i: int) -> bool {
        &&& 0 <= i < self.messages.len()
        &&& self.messages[i].name == n
        &&& forall|j: int| 0 <= j < i ==> self.messages[j].name != n
    }

    /// Some registered message has the name `n`.
    pub open spec fn has_message_named(self, n: ProtoName) -> bool {
        exists|i: int| 0 <= i < self.messages.len() && self.messages[i].name == n
    }
}

/// The load-time guess whether an identifier already carries a meaningful
/// name. The obfuscator replaces names by eleven-character all-uppercase
/// tokens, so everything else starts out as already resolved. The pattern is a
/// heuristic tied to that naming convention, not a rule of the schema
/// language.
pub open spec fn looks_meaningful(s: Seq<char>) -> bool {
    !(s.len() == 11 && forall|i: int| 0 <= i < s.len() ==> is_ascii_upper(#[trigger] s[i]))
}

/// The character is an ASCII capital letter.
pub open spec fn is_ascii_upper(c: char) -> bool {
    'A' <= c <= 'Z'
}

/// The running translation for a prefix of the ids: for each id below `n`
/// whose current text differs from its load-time text, the pair (load-time
/// text, current text), in id order.
pub open spec fn translation_pairs_upto(db: DbView, n: int) -> Seq<(Seq<char>, Seq<char>)>
    decreases n,
{
    if n <= 0 {
        Seq::empty()
    } else {
        translation_pairs_upto(db, n - 1) + if db.names[n - 1] != db.original[n - 1] {
            seq![(db.original[n - 1], db.names[n - 1])]
        } else {
            Seq::empty()
        }
    }
}

/// The full translation: one pair per id whose bound text changed since load.
pub open spec fn translation_pairs(db: DbView) -> Seq<(Seq<char>, Seq<char>)> {
    translation_pairs_upto(db, db.names.len() as int)
}

/// One schema's database: symbol table, load-time snapshot, resolved flags,
/// and registered messages. Ids are indices into the parallel columns.
pub struct ProtoDatabase {
    names: Vec<String>,
    original: Vec<String>,
    resolved: Vec<bool>,
    messages: Vec<ProtoMessage>,
}

impl View for ProtoDatabase {
    type V = DbView;

    closed spec fn view(&self) -> DbView {
        DbView {
            names: Seq::new(self.names@.len(), |i: int| self.names@[i]@),
            original: Seq::new(self.original@.len(), |i: int| self.original@[i]@),
            resolved: self.resolved@,
            messages: Seq::new(self.messages@.len(), |i: int| self.messages@[i]@),
        }
    }
}

impl ProtoDatabase {
    /// An empty database: no ids issued, no messages registered.
    pub fn new() -> (r: Self)
        ensures
            r@.wf(),
            r@.names == Seq::<Seq<char>>::empty(),
            r@.original == Seq::<Seq<char>>::empty(),
            r@.resolved == Seq::<bool>::empty(),
            r@.messages == Seq::<MessageView>::empty(),
    {
        let r = ProtoDatabase {
            names: Vec::new(),
            original: Vec::new(),
            resolved: Vec::new(),
            messages: Vec::new(),
        };
        proof {
            assert(r@.names =~= Seq::<Seq<char>>::empty());
            assert(r@.original =~= Seq::<Seq<char>>::empty());
            assert(r@.messages =~= Seq::<MessageView>::empty());
        }
        r
    }

    /// The load-time guess whether this identifier already carries a
    /// meaningful name.
    #[verifier::loop_isolation(false)]
    fn guess_resolution(text: &str) -> (r: bool)
        ensures
            r == looks_meaningful(text@),
    {
        let n = text.unicode_len();
        if n != 11 {
            return true;
        }
        let mut i: usize = 0;
        while i < n
            invariant
                0 <= i <= n,
                n == text@.len(),
                n == 11,
                forall|j: int| 0 <= j < i ==> is_ascii_upper(#[trigger] text@[j]),
            decreases n - i,
        {
            let c = text.get_char(i);
            if !(c >= 'A' && c <= 'Z') {
                return true;
            }
            i = i + 1;
        }
        false
    }

    /// The lowest id currently bound to this text, if any id is.
    #[verifier::loop_isolation(false)]
    pub fn find_name(&self, text: &str) -> (r: Option<ProtoName>)
        ensures
            match r {
                Some(n) => self@.is_first_id_of(text@, n.id as int),
                None => !self@.has_text(text@),
            },
    {
        let owned: String = text.to_owned();
        let mut i: usize = 0;
        while i < self.names.len()
            invariant
                0 <= i <= self.names@.len(),
                owned@ == text@,
                forall|j: int| 0 <= j < i ==> self@.names[j] != text@,
                self@.names.len() == self.names@.len(),
                forall|j: int|
                    0 <= j < self.names@.len() ==> self@.names[j] == #[trigger] self.names@[j]@,
            decreases self.names@.len() - i,
        {
            if self.names[i] == owned {
                return Some(ProtoName { id: i });
            }
            i = i + 1;
        }
        None
    }

    /// Interns the text: returns the existing id when the text is already
    /// bound, and otherwise issues the next id, binds the text to it (both in
    /// the current table and in the load-time snapshot), and records the
    /// load-time resolution guess.
    pub fn register_identifier(&mut self, text: String) -> (id: usize)
        requires
            old(self)@.wf(),
        ensures
            final(self)@.wf(),
            old(self)@.has_text(text@) ==> {
                &&& final(self)@ == old(self)@
                &&& old(self)@.is_first_id_of(text@, id as int)
            },
            !old(self)@.has_text(text@) ==> {
                &&& id as int == old(self)@.names.len()
                &&& final(self)@.names == old(self)@.names.push(text@)
                &&& final(self)@.original == old(self)@.original.push(text@)
                &&& final(self)@.resolved == old(self)@.resolved.push(looks_meaningful(text@))
                &&& final(self)@.messages == old(self)@.messages
            },
    {
        match self.find_name(text.as_str()) {
            Some(n) => n.id,
            None => {
                let id = self.names.len();
                let guess = Self::guess_resolution(text.as_str());
                self.resolved.push(guess);
                self.original.push(text.clone());
                self.names.push(text);
                proof {
                    assert(self@.names =~= old(self)@.names.push(self.names@[id as int]@));
                    assert(self@.original =~= old(self)@.original.push(
                        self.original@[id as int]@,
                    ));
                    assert(self@.messages =~= old(self)@.messages);
                }
                id
            },
        }
    }

    /// Binds an issued id to new text and marks it resolved: the one state
    /// change a commit performs. Nothing else changes, in particular not the
    /// load-time snapshot.
    pub(crate) fn bind_resolved(&mut self, tgt: usize, text: String)
        requires
            old(self)@.wf(),
            old(self)@.id_in_range(tgt as int),
        ensures
            final(self)@.wf(),
            final(self)@.names == old(self)@.names.update(tgt as int, text@),
            final(self)@.resolved == old(self)@.resolved.update(tgt as int, true),
            final(self)@.original == old(self)@.original,
            final(self)@.messages == old(self)@.messages,
    {
        let ghost pre = self@;
        self.names[tgt] = text;
        self.resolved[tgt] = true;
        proof {
            assert(self@.names =~= pre.names.update(tgt as int, self.names@[tgt as int]@));
            assert(self@.resolved =~= pre.resolved.update(tgt as int, true));
            assert(self@.original =~= pre.original);
            assert(self@.messages =~= pre.messages);
        }
    }

    /// Whether the name's id is marked resolved; an id this table never
    /// issued counts as unresolved.
    pub fn is_resolved(&self, proto_name: &ProtoName) -> (r: bool)
        ensures
            r == self@.name_resolved(*proto_name),
    {
        if proto_name.id < self.resolved.len() {
            self.resolved[proto_name.id]
        } else {
            false
        }
    }

    /// The interned name for a text known to be bound.
    pub fn lookup_name_by_text(&self, text: &str) -> (r: ProtoName)
        requires
            self@.has_text(text@),
        ensures
            self@.is_first_id_of(text@, r.id as int),
    {
        ProtoName::lookup(self, text)
    }

    /// How many ids the table has issued.
    pub fn name_count(&self) -> (r: usize)
        ensures
            r as int == self@.names.len(),
    {
        self.names.len()
    }

    /// How many messages are registered.
    pub fn message_count(&self) -> (r: usize)
        ensures
            r as int == self@.messages.len(),
    {
        self.messages.len()
    }

    /// The registered message at a position.
    pub fn message_at(&self, i: usize) -> (r: &ProtoMessage)
        requires
            i < self@.messages.len(),
        ensures
            r@ == self@.messages[i as int],
    {
        &self.messages[i]
    }

    /// Registers a message under its name: replaces the first message already
    /// carrying that name, and otherwise appends.
    #[verifier::loop_isolation(false)]
    pub fn register_message(&mut self, message: ProtoMessage)
        requires
            old(self)@.wf(),
            old(self)@.msg_wf(message@),
        ensures
            final(self)@.wf(),
            final(self)@.names == old(self)@.names,
            final(self)@.original == old(self)@.original,
            final(self)@.resolved == old(self)@.resolved,
            forall|i: int|
                0 <= i < old(self)@.messages.len() ==> old(self)@.is_first_msg_with_name(
                    message@.name,
                    i,
                ) ==> final(self)@.messages == old(self)@.messages.update(i, message@),
            !old(self)@.has_message_named(message@.name) ==> final(self)@.messages == old(
                self,
            )@.messages.push(message@),
    {
        let ghost pre = self@;
        let mut i: usize = 0;
        while i < self.messages.len()
            invariant
                0 <= i <= self.messages@.len(),
                self@ == pre,
                pre.wf(),
                pre.msg_wf(message@),
                self@.messages.len() == self.messages@.len(),
                forall|j: int|
                    0 <= j < self.messages@.len() ==> self@.messages[j] == #[trigger] self
                        .messages@[j]@,
                forall|j: int| 0 <= j < i ==> self@.messages[j].name != message.name,
            decreases self.messages@.len() - i,
        {
            if self.messages[i].name == message.name {
                self.messages[i] = message;
                proof {
                    assert(self@.messages =~= pre.messages.update(i as int, self.messages@[
                        i as int]@));
                    assert(pre.is_first_msg_with_name(self.messages@[i as int]@.name, i as int));
                    assert(self@.names =~= pre.names);
                    assert(self@.original =~= pre.original);
                }
                return ;
            }
            i = i + 1;
        }
        self.messages.push(message);
        proof {
            assert(self@.messages =~= pre.messages.push(self.messages@[(self.messages@.len()
                - 1) as int]@));
            assert(self@.names =~= pre.names);
            assert(self@.original =~= pre.original);
        }
    }

    /// The first registered message bound to this text, copied out; the text
    /// must be one the table has issued.
    #[verifier::loop_isolation(false)]
    pub fn get_message(&self, name: &str) -> (r: Option<ProtoMessage>)
        requires
            self@.has_text(name@),
        ensures
            match r {
                Some(m) => exists|i: int|
                    self@.is_first_msg_with_name(m.name, i) && m@ == self@.messages[i]
                        && self@.is_first_id_of(name@, m.name.id as int),
                None => forall|i: int|
                    0 <= i < self@.messages.len() ==> !self@.is_first_id_of(
                        name@,
                        (#[trigger] self@.messages[i]).name.id as int,
                    ),
            },
    {
        let n = ProtoName::lookup(self, name);
        let mut i: usize = 0;
        while i < self.messages.len()
            invariant
                0 <= i <= self.messages@.len(),
                self@.is_first_id_of(name@, n.id as int),
                self@.messages.len() == self.messages@.len(),
                forall|j: int|
                    0 <= j < self.messages@.len() ==> self@.messages[j] == #[trigger] self
                        .messages@[j]@,
                forall|j: int| 0 <= j < i ==> self@.messages[j].name != n,
            decreases self.messages@.len() - i,
        {
            if self.messages[i].name == n {
                let m = self.messages[i].duplicate();
                proof {
                    assert(self@.is_first_msg_with_name(m.name, i as int));
                    assert(m@ =~= self@.messages[i as int]);
                }
                return Some(m);
            }
            i = i + 1;
        }
        None
    }

    /// The final rename set: for every id whose bound text changed since
    /// load, the pair (load-time text, current text), in id order.
    #[verifier::loop_isolation(false)]
    pub fn generate_nametranslation(&self) -> (r: Vec<(String, String)>)
        requires
            self@.wf(),
        ensures
            r@.len() == translation_pairs(self@).len(),
            forall|j: int|
                0 <= j < r@.len() ==> (#[trigger] r@[j]).0@ == translation_pairs(self@)[j].0 && r@[
                    j].1@ == translation_pairs(self@)[j].1,
    {
        let mut r: Vec<(String, String)> = Vec::new();
        let mut i: usize = 0;
        while i < self.names.len()
            invariant
                0 <= i <= self.names@.len(),
                self@.wf(),
                self@.names.len() == self.names@.len(),
                forall|j: int|
                    0 <= j < self.names@.len() ==> self@.names[j] == #[trigger] self.names@[j]@,
                forall|j: int|
                    0 <= j < self.original@.len() ==> self@.original[j] == #[trigger] self
                        .original@[j]@,
                r@.len() == translation_pairs_upto(self@, i as int).len(),
                forall|j: int|
                    0 <= j < r@.len() ==> (#[trigger] r@[j]).0@ == translation_pairs_upto(
                        self@,
                        i as int,
                    )[j].0 && r@[j].1@ == translation_pairs_upto(self@, i as int)[j].1,
            decreases self.names@.len() - i,
        {
            let differs = !(self.names[i] == self.original[i]);
            if differs {
                r.push((self.original[i].clone(), self.names[i].clone()));
            }
            i = i + 1;
        }
        r
    }
}

impl ProtoName {
    /// The interned name for a text known to be bound in the database.
    pub fn lookup(db: &ProtoDatabase, name: &str) -> (r: Self)
        requires
            db@.has_text(name@),
        ensures
            db@.is_first_id_of(name@, r.id as int),
    {
        match db.find_name(name) {
            Some(n) => n,
            None => {
                proof {
                    assert(false);
                }
                ProtoName { id: 0 }
            },
        }
    }

    /// The text currently bound to this name's id.
    pub fn name(&self, db: &ProtoDatabase) -> (r: String)
        requires
            db@.id_in_range(self.id as int),
        ensures
            r@ == db@.text_of(*self),
    {
        db.text_at(self.id)
    }
}

impl ProtoDatabase {
    /// The text currently bound to an issued id.
    pub fn text_at(&self, id: usize) -> (r: String)
        requires
            self@.id_in_range(id as int),
        ensures
            r@ == self@.names[id as int],
    {
        self.names[id].clone()
    }
}

} // verus!
