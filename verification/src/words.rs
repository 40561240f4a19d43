//! The fixed words of the format.
use crate::lexical::lemma_word_bytes;
use vstd::prelude::*;
use vstd::string::StringSliceAdditionalSpecFns;

verus! {

/// The fixed words of the format, byte by byte.
pub proof fn lemma_format_words()
    ensures
        "$MeshFormat".spec_bytes() =~= seq![
            0x24u8, 0x4du8, 0x65u8, 0x73u8, 0x68u8, 0x46u8, 0x6fu8, 0x72u8, 0x6du8, 0x61u8, 0x74u8,
        ],
        "$EndMeshFormat".spec_bytes() =~= seq![
            0x24u8, 0x45u8, 0x6eu8, 0x64u8, 0x4du8, 0x65u8, 0x73u8, 0x68u8, 0x46u8, 0x6fu8, 0x72u8,
            0x6du8, 0x61u8, 0x74u8,
        ],
        "MeshFormat".spec_bytes() =~= seq![
            0x4du8, 0x65u8, 0x73u8, 0x68u8, 0x46u8, 0x6fu8, 0x72u8, 0x6du8, 0x61u8, 0x74u8,
        ],
        "2.2".spec_bytes() =~= seq![0x32u8, 0x2eu8, 0x32u8],
        "4.1".spec_bytes() =~= seq![0x34u8, 0x2eu8, 0x31u8],
        "$End".spec_bytes() =~= seq![0x24u8, 0x45u8, 0x6eu8, 0x64u8],
        "$Nodes".spec_bytes() =~= seq![0x24u8, 0x4eu8, 0x6fu8, 0x64u8, 0x65u8, 0x73u8],
        "$EndNodes".spec_bytes() =~= seq![
            0x24u8, 0x45u8, 0x6eu8, 0x64u8, 0x4eu8, 0x6fu8, 0x64u8, 0x65u8, 0x73u8,
        ],
        "$Elements".spec_bytes() =~= seq![
            0x24u8, 0x45u8, 0x6cu8, 0x65u8, 0x6du8, 0x65u8, 0x6eu8, 0x74u8, 0x73u8,
        ],
        "$EndElements".spec_bytes() =~= seq![
            0x24u8, 0x45u8, 0x6eu8, 0x64u8, 0x45u8, 0x6cu8, 0x65u8, 0x6du8, 0x65u8, 0x6eu8, 0x74u8,
            0x73u8,
        ],
        "$PhysicalNames".spec_bytes() =~= seq![
            0x24u8, 0x50u8, 0x68u8, 0x79u8, 0x73u8, 0x69u8, 0x63u8, 0x61u8, 0x6cu8, 0x4eu8, 0x61u8,
            0x6du8, 0x65u8, 0x73u8,
        ],
        "$EndPhysicalNames".spec_bytes() =~= seq![
            0x24u8, 0x45u8, 0x6eu8, 0x64u8, 0x50u8, 0x68u8, 0x79u8, 0x73u8, 0x69u8, 0x63u8, 0x61u8,
            0x6cu8, 0x4eu8, 0x61u8, 0x6du8, 0x65u8, 0x73u8,
        ],
{
    reveal_strlit("$MeshFormat");
    lemma_word_bytes("$MeshFormat");
    reveal_strlit("$EndMeshFormat");
    lemma_word_bytes("$EndMeshFormat");
    reveal_strlit("MeshFormat");
    lemma_word_bytes("MeshFormat");
    reveal_strlit("2.2");
    lemma_word_bytes("2.2");
    reveal_strlit("4.1");
    lemma_word_bytes("4.1");
    reveal_strlit("$End");
    lemma_word_bytes("$End");
    reveal_strlit("$Nodes");
    lemma_word_bytes("$Nodes");
    reveal_strlit("$EndNodes");
    lemma_word_bytes("$EndNodes");
    reveal_strlit("$Elements");
    lemma_word_bytes("$Elements");
    reveal_strlit("$EndElements");
    lemma_word_bytes("$EndElements");
    reveal_strlit("$PhysicalNames");
    lemma_word_bytes("$PhysicalNames");
    reveal_strlit("$EndPhysicalNames");
    lemma_word_bytes("$EndPhysicalNames");
}

/// How long the fixed words of the format are, the letters by which those that open a section
/// differ, and that those that close a section start with a dollar sign.
pub proof fn lemma_words_not_empty()
    ensures
        "$MeshFormat".spec_bytes().len() == 11,
        "$EndMeshFormat".spec_bytes().len() == 14,
        "$End".spec_bytes().len() == 4,
        "$Nodes".spec_bytes().len() == 6,
        "$EndNodes".spec_bytes().len() == 9,
        "$Elements".spec_bytes().len() == 9,
        "$EndElements".spec_bytes().len() == 12,
        "$PhysicalNames".spec_bytes().len() == 14,
        "$EndPhysicalNames".spec_bytes().len() == 17,
        "$Nodes".spec_bytes()[1] == 0x4e,
        "$Elements".spec_bytes()[1] == 0x45,
        "$PhysicalNames".spec_bytes()[1] == 0x50,
        "$EndNodes".spec_bytes()[0] == 0x24,
        "$EndElements".spec_bytes()[0] == 0x24,
        "$EndPhysicalNames".spec_bytes()[0] == 0x24,
{
    lemma_format_words();
}

} // verus!
