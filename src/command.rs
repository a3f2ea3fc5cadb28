use vstd::prelude::*;
use crate::encoder::{lemma_encoding_all_push, push_digits};
use crate::value::{crlf, digits, encoding, encoding_all, RespValue, CR, LF};

verus! {

/// A command for the store: its name followed by its arguments, each an
/// opaque byte string.
pub struct Command {
    args: Vec<Vec<u8>>,
}

/// The value a command is sent as: an array of bulk strings.
pub open spec fn command_value(args: Seq<Seq<u8>>) -> RespValue {
    RespValue::Array(args.map_values(|a: Seq<u8>| RespValue::Bulk(a)))
}

impl View for Command {
    type V = Seq<Seq<u8>>;

    closed spec fn view(&self) -> Seq<Seq<u8>> {
        self.args@.map_values(|a: Vec<u8>| a@)
    }
}

impl Command {
    /// A command with no words yet.
    pub fn new() -> (r: Command)
        ensures
            r@ == Seq::<Seq<u8>>::empty(),
    {
        let r = Command { args: Vec::new() };
        assert(r@ =~= Seq::<Seq<u8>>::empty());
        r
    }

    /// A command made of the given words, the name first.
    pub fn from_args(args: Vec<Vec<u8>>) -> (r: Command)
        ensures
            r@ == args@.map_values(|a: Vec<u8>| a@),
    {
        Command { args }
    }

    /// Appends one word.
    pub fn arg(&mut self, word: Vec<u8>)
        ensures
            final(self)@ == old(self)@.push(word@),
    {
        self.args.push(word);
        assert(self@ =~= old(self)@.push(word@));
    }

    /// The number of words, the name included.
    pub fn len(&self) -> (r: usize)
        ensures
            r == self@.len(),
    {
        self.args.len()
    }

    /// The words of the command, the name first.
    pub fn args(&self) -> (r: &Vec<Vec<u8>>)
        ensures
            r@.map_values(|a: Vec<u8>| a@) == self@,
    {
        &self.args
    }

    /// The bytes that send this command: an array of bulk strings.
    pub fn frame(&self) -> (r: Vec<u8>)
        ensures
            r@ == encoding(command_value(self@)),
    {
        let ghost words = self@;
        let ghost items = words.map_values(|a: Seq<u8>| RespValue::Bulk(a));
        let mut out: Vec<u8> = Vec::new();
        out.push(42u8);
        push_digits(&mut out, self.args.len() as u64);
        out.push(CR);
        out.push(LF);
        let ghost header = out@;
        assert(header =~= seq![42u8] + digits(self.args.len() as nat) + crlf());
        assert(items.take(0) =~= Seq::<RespValue>::empty());
        assert(encoding_all(Seq::<RespValue>::empty()) =~= Seq::<u8>::empty());
        let mut i: usize = 0;
        while i < self.args.len()
            invariant
                i <= self.args@.len(),
                words == self@,
                words.len() == self.args@.len(),
                items == words.map_values(|a: Seq<u8>| RespValue::Bulk(a)),
                out@ == header + encoding_all(items.take(i as int)),
            decreases self.args@.len() - i,
        {
            let word = &self.args[i];
            let ghost before = out@;
            out.push(36u8);
            push_digits(&mut out, word.len() as u64);
            out.push(CR);
            out.push(LF);
            let mut j: usize = 0;
            while j < word.len()
                invariant
                    j <= word@.len(),
                    out@ == before + seq![36u8] + digits(word@.len() as nat) + crlf() + word@.take(
                        j as int,
                    ),
                decreases word@.len() - j,
            {
                out.push(word[j]);
                j = j + 1;
                assert(out@ =~= before + seq![36u8] + digits(word@.len() as nat) + crlf()
                    + word@.take(j as int));
            }
            out.push(CR);
            out.push(LF);
            proof {
                assert(words[i as int] == word@);
                assert(word@.take(j as int) =~= word@);
                assert(out@ =~= before + encoding(items[i as int]));
                assert(items.take(i + 1) =~= items.take(i as int).push(items[i as int]));
                lemma_encoding_all_push(items.take(i as int), items[i as int]);
            }
            i = i + 1;
            assert(out@ =~= header + encoding_all(items.take(i as int)));
        }
        assert(items.take(i as int) =~= items);
        assert(out@ =~= encoding(command_value(self@)));
        out
    }
}

} // verus!
