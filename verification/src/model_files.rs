//! The files of a model.
//!
//! Paths are values of any kind; how a name is joined to a directory and whether there is a file
//! are handed in as functions.

use vstd::prelude::*;

use crate::text::{chars_of, push_text, string_of};

verus! {

/// The revision of the model, which names its directory.
pub const MODEL_REVISION: &'static str = "iflytek-edgeesr-v1.0.0";

/// The release that holds the model.
pub const MODEL_RELEASE_TAG: &'static str = "models-iflytek-v1.0.0";

/// The archive of the model.
pub const MODEL_RELEASE_ASSET: &'static str = "vocotype-iflytek-model-macos-arm64-v1.0.0.tar.gz";

/// The checksum of the archive.
pub const MODEL_RELEASE_SHA256_ASSET: &'static str =
    "vocotype-iflytek-model-macos-arm64-v1.0.0.tar.gz.sha256";

/// How many files a model has.
pub const MODEL_FILE_COUNT: usize = 14;

/// The names of a model's files.
pub open spec fn file_name(index: int) -> &'static str {
    if index == 0 {
        "vgg_encoder.onnx"
    } else if index == 1 {
        "conformer_encoder.onnx"
    } else if index == 2 {
        "decoder_part1.onnx"
    } else if index == 3 {
        "decoder_part2.onnx"
    } else if index == 4 {
        "vad.onnx"
    } else if index == 5 {
        "attention_weights.npz"
    } else if index == 6 {
        "tokens.txt"
    } else if index == 7 {
        "number-normalization.npz"
    } else if index == 8 {
        "number-vocabulary.txt"
    } else if index == 9 {
        "number-not-change.txt.gz"
    } else if index == 10 {
        "punctuation-bert.npz"
    } else if index == 11 {
        "punctuation-vocabulary.txt"
    } else if index == 12 {
        "punctuation-maplist.bin"
    } else {
        "replacements.txt.gz"
    }
}

/// The name of one of a model's files.
pub fn required_model_file(index: usize) -> (name: &'static str)
    requires
        index < MODEL_FILE_COUNT,
    ensures
        name == file_name(index as int),
{
    if index == 0 {
        "vgg_encoder.onnx"
    } else if index == 1 {
        "conformer_encoder.onnx"
    } else if index == 2 {
        "decoder_part1.onnx"
    } else if index == 3 {
        "decoder_part2.onnx"
    } else if index == 4 {
        "vad.onnx"
    } else if index == 5 {
        "attention_weights.npz"
    } else if index == 6 {
        "tokens.txt"
    } else if index == 7 {
        "number-normalization.npz"
    } else if index == 8 {
        "number-vocabulary.txt"
    } else if index == 9 {
        "number-not-change.txt.gz"
    } else if index == 10 {
        "punctuation-bert.npz"
    } else if index == 11 {
        "punctuation-vocabulary.txt"
    } else if index == 12 {
        "punctuation-maplist.bin"
    } else {
        "replacements.txt.gz"
    }
}

/// The paths of a model's files.
#[derive(Debug)]
pub struct EdgeEsrModelFiles<P> {
    pub root: P,
    pub vgg_encoder: P,
    pub conformer_encoder: P,
    pub decoder_part1: P,
    pub decoder_part2: P,
    pub vad: P,
    pub attention_weights: P,
    pub tokens: P,
    pub number_normalization: P,
    pub number_vocabulary: P,
    pub number_not_change: P,
    pub punctuation_bert: P,
    pub punctuation_vocabulary: P,
    pub punctuation_maplist: P,
    pub replacements: P,
}

impl<P> EdgeEsrModelFiles<P> {
    /// The paths in the order of their names.
    pub open spec fn paths(self) -> Seq<P> {
        seq![
            self.vgg_encoder,
            self.conformer_encoder,
            self.decoder_part1,
            self.decoder_part2,
            self.vad,
            self.attention_weights,
            self.tokens,
            self.number_normalization,
            self.number_vocabulary,
            self.number_not_change,
            self.punctuation_bert,
            self.punctuation_vocabulary,
            self.punctuation_maplist,
            self.replacements,
        ]
    }

    /// Each file's path is its name joined to the directory.
    pub open spec fn lies_in<J: Fn(&P, &'static str) -> P>(self, join: J) -> bool {
        forall|index: int|
            0 <= index < MODEL_FILE_COUNT ==> call_ensures(
                join,
                (&self.root, file_name(index)),
                #[trigger] self.paths()[index],
            )
    }

    /// The path of one file.
    fn path(&self, index: usize) -> (result: &P)
        requires
            index < MODEL_FILE_COUNT,
        ensures
            *result == self.paths()[index as int],
    {
        if index == 0 {
            &self.vgg_encoder
        } else if index == 1 {
            &self.conformer_encoder
        } else if index == 2 {
            &self.decoder_part1
        } else if index == 3 {
            &self.decoder_part2
        } else if index == 4 {
            &self.vad
        } else if index == 5 {
            &self.attention_weights
        } else if index == 6 {
            &self.tokens
        } else if index == 7 {
            &self.number_normalization
        } else if index == 8 {
            &self.number_vocabulary
        } else if index == 9 {
            &self.number_not_change
        } else if index == 10 {
            &self.punctuation_bert
        } else if index == 11 {
            &self.punctuation_vocabulary
        } else if index == 12 {
            &self.punctuation_maplist
        } else {
            &self.replacements
        }
    }

    /// The paths of all files, in the order of their names.
    pub fn required_paths(&self) -> (result: Vec<&P>)
        ensures
            result@.len() == MODEL_FILE_COUNT,
            forall|index: int|
                0 <= index < MODEL_FILE_COUNT ==> *(#[trigger] result@[index])
                    == self.paths()[index],
    {
        let mut result: Vec<&P> = Vec::new();
        for index in 0..MODEL_FILE_COUNT
            invariant
                result@.len() == index,
                forall|place: int|
                    0 <= place < index ==> *(#[trigger] result@[place]) == self.paths()[place],
        {
            result.push(self.path(index));
        }
        result
    }

    /// The files of a model in a directory, or the first one that is missing.
    pub fn from_dir<J: Fn(&P, &'static str) -> P, X: Fn(&P) -> bool>(
        root: P,
        join: &J,
        present: &X,
    ) -> (result: Result<Self, (Self, usize)>)
        requires
            forall|root: &P, name: &'static str| call_requires(*join, (root, name)),
            forall|path: &P| call_requires(*present, (path,)),
        ensures
            match result {
                Ok(files) => files.root == root && files.lies_in(*join) && forall|index: int|
                    0 <= index < MODEL_FILE_COUNT ==> call_ensures(
                        *present,
                        (&#[trigger] files.paths()[index],),
                        true,
                    ),
                Err((files, missing)) => files.root == root && files.lies_in(*join) && missing
                    < MODEL_FILE_COUNT && call_ensures(
                    *present,
                    (&files.paths()[missing as int],),
                    false,
                ) && forall|index: int|
                    0 <= index < missing ==> call_ensures(
                        *present,
                        (&#[trigger] files.paths()[index],),
                        true,
                    ),
            },
    {
        let files = EdgeEsrModelFiles {
            vgg_encoder: join(&root, "vgg_encoder.onnx"),
            conformer_encoder: join(&root, "conformer_encoder.onnx"),
            decoder_part1: join(&root, "decoder_part1.onnx"),
            decoder_part2: join(&root, "decoder_part2.onnx"),
            vad: join(&root, "vad.onnx"),
            attention_weights: join(&root, "attention_weights.npz"),
            tokens: join(&root, "tokens.txt"),
            number_normalization: join(&root, "number-normalization.npz"),
            number_vocabulary: join(&root, "number-vocabulary.txt"),
            number_not_change: join(&root, "number-not-change.txt.gz"),
            punctuation_bert: join(&root, "punctuation-bert.npz"),
            punctuation_vocabulary: join(&root, "punctuation-vocabulary.txt"),
            punctuation_maplist: join(&root, "punctuation-maplist.bin"),
            replacements: join(&root, "replacements.txt.gz"),
            root,
        };
        let mut index: usize = 0;
        while index < MODEL_FILE_COUNT
            invariant
                forall|path: &P| call_requires(*present, (path,)),
                files.root == root,
                files.lies_in(*join),
                index <= MODEL_FILE_COUNT,
                forall|place: int|
                    0 <= place < index ==> call_ensures(
                        *present,
                        (&#[trigger] files.paths()[place],),
                        true,
                    ),
            decreases MODEL_FILE_COUNT - index,
        {
            if !present(files.path(index)) {
                return Err((files, index));
            }
            index = index + 1;
        }
        Ok(files)
    }

    /// The paths of the files that are missing from a directory.
    pub fn missing_from_dir<J: Fn(&P, &'static str) -> P, X: Fn(&P) -> bool>(
        root: &P,
        join: &J,
        is_file: &X,
    ) -> (result: Vec<P>)
        requires
            forall|root: &P, name: &'static str| call_requires(*join, (root, name)),
            forall|path: &P| call_requires(*is_file, (path,)),
        ensures
            exists|found: Seq<(P, bool)>|
                {
                    &&& #[trigger] looks_up(*join, *is_file, *root, found)
                    &&& found.len() == MODEL_FILE_COUNT
                    &&& result@ == absent(found)
                },
    {
        let ghost mut found: Seq<(P, bool)> = Seq::empty();
        let mut result: Vec<P> = Vec::new();
        for index in 0..MODEL_FILE_COUNT
            invariant
                forall|root: &P, name: &'static str| call_requires(*join, (root, name)),
                forall|path: &P| call_requires(*is_file, (path,)),
                found.len() == index,
                looks_up(*join, *is_file, *root, found),
                result@ == absent(found),
        {
            let path: P = join(root, required_model_file(index));
            let there: bool = is_file(&path);
            let ghost before = found;
            proof {
                found = found.push((path, there));
                assert(found.drop_last() =~= before);
            }
            if !there {
                result.push(path);
            }
        }
        result
    }
}

/// Each name joined to the directory, and whether there is a file.
pub open spec fn looks_up<P, J: Fn(&P, &'static str) -> P, X: Fn(&P) -> bool>(
    join: J,
    is_file: X,
    root: P,
    found: Seq<(P, bool)>,
) -> bool {
    forall|index: int|
        0 <= index < found.len() ==> call_ensures(
            join,
            (&root, file_name(index)),
            (#[trigger] found[index]).0,
        ) && call_ensures(is_file, (&found[index].0,), found[index].1)
}

/// The paths without a file.
pub open spec fn absent<P>(found: Seq<(P, bool)>) -> Seq<P>
    decreases found.len(),
{
    if found.len() == 0 {
        Seq::empty()
    } else if found.last().1 {
        absent(found.drop_last())
    } else {
        absent(found.drop_last()).push(found.last().0)
    }
}

/// The directory of the model below a root.
pub fn model_dir<P, J: Fn(&P, &'static str) -> P>(root: &P, join: &J) -> (result: P)
    requires
        forall|root: &P, name: &'static str| call_requires(*join, (root, name)),
    ensures
        call_ensures(*join, (root, MODEL_REVISION), result),
{
    join(root, MODEL_REVISION)
}

/// What to say when a model cannot be loaded.
pub fn model_load_error(root: &str, error: &str) -> (message: String)
    ensures
        message@ == "unable to load EdgeEsr model from "@ + root@ + ": "@ + error@
            + ". Download release "@ + MODEL_RELEASE_TAG@,
{
    let mut message: Vec<char> = chars_of("unable to load EdgeEsr model from ");
    push_text(&mut message, root);
    push_text(&mut message, ": ");
    push_text(&mut message, error);
    push_text(&mut message, ". Download release ");
    push_text(&mut message, MODEL_RELEASE_TAG);
    string_of(&message)
}

/// A path is reported as absent just where there is no file.
pub proof fn law_absent_paths_have_no_file<P>(found: Seq<(P, bool)>, path: P)
    ensures
        absent(found).contains(path) <==> exists|index: int|
            0 <= index < found.len() && #[trigger] found[index] == (path, false),
        absent(found).len() == 0 <==> forall|index: int|
            0 <= index < found.len() ==> (#[trigger] found[index]).1,
    decreases found.len(),
{
    if found.len() > 0 {
        let shorter = found.drop_last();
        let last = found.last();
        law_absent_paths_have_no_file(shorter, path);
        assert(found[found.len() - 1] == last);
        assert forall|index: int| 0 <= index < shorter.len() implies shorter[index]
            == found[index] by {}
        if !last.1 {
            let all = absent(shorter).push(last.0);
            assert(all[all.len() - 1] == last.0);
            if absent(shorter).contains(path) {
                let at = choose|at: int|
                    0 <= at < absent(shorter).len() && absent(shorter)[at] == path;
                assert(all[at] == path);
            }
            if all.contains(path) {
                let at = choose|at: int| 0 <= at < all.len() && all[at] == path;
                if at < absent(shorter).len() {
                    assert(absent(shorter)[at] == path);
                }
            }
        }
        if absent(shorter).contains(path) {
            let at = choose|at: int| 0 <= at < shorter.len() && #[trigger] shorter[at] == (path, false);
            assert(found[at] == (path, false));
        }
        if exists|index: int| 0 <= index < found.len() && #[trigger] found[index] == (path, false) {
            let at = choose|at: int| 0 <= at < found.len() && #[trigger] found[at] == (path, false);
            if at < shorter.len() {
                assert(shorter[at] == (path, false));
            }
        }
        if forall|index: int| 0 <= index < shorter.len() ==> (#[trigger] shorter[index]).1 {
            assert forall|index: int| 0 <= index < found.len() - 1 implies (
            #[trigger] found[index]).1 by {
                assert(shorter[index].1);
            }
        } else {
            let at = choose|at: int| 0 <= at < shorter.len() && !(#[trigger] shorter[at]).1;
            assert(!found[at].1);
        }
    }
}

}
