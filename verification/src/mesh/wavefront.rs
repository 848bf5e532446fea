use vstd::prelude::*;

verus! {

/// A reader for the Wavefront OBJ text format. It holds the path it was
/// constructed from; decoding the file's bytes is the caller's concern, and
/// parsing the decoded text happens here.
#[derive(Debug, Clone)]
pub struct ObjReader {
    path: String,
}

/// A vertex parsed from an OBJ `v` line: the raw coordinate tokens of the
/// line's exactly three numeric fields.
#[derive(Debug, Clone)]
pub struct ObjVertex {
    pub x: Vec<u8>,
    pub y: Vec<u8>,
    pub z: Vec<u8>,
}

/// The contents of an OBJ document: vertices as coordinate tokens, faces as
/// zero-based vertex index lists with an optional patch id, and the patch
/// names declared by `g` lines.
#[derive(Debug, Clone)]
pub struct ObjDoc {
    pub vertices: Vec<ObjVertex>,
    pub face_vertices: Vec<Vec<usize>>,
    pub face_patches: Vec<Option<usize>>,
    pub patches: Vec<Vec<u8>>,
}

/// A parse failure, carrying the raw line payload that was rejected.
#[derive(Debug, Clone, PartialEq, Eq)]
pub enum ParseObjError {
    InvalidVertex(Vec<u8>),
    InvalidFace(Vec<u8>),
}

/// ASCII whitespace, as the tokenizer splits it.
pub open spec fn is_space(c: u8) -> bool {
    c == 32 || c == 9 || c == 10 || c == 13 || c == 12 || c == 11
}

fn byte_is_space(c: u8) -> (r: bool)
    ensures
        r == is_space(c),
{
    c == 32 || c == 9 || c == 10 || c == 13 || c == 12 || c == 11
}

/// An OBJ document is well formed when every face has at least three
/// vertices and every patch id points into the patch list.
pub open spec fn doc_wf(doc: ObjDoc) -> bool {
    &&& doc.face_vertices@.len() == doc.face_patches@.len()
    &&& forall|f: int|
        0 <= f < doc.face_vertices@.len() ==> (#[trigger] doc.face_vertices@[f])@.len() >= 3
    &&& forall|f: int|
        0 <= f < doc.face_patches@.len() && (#[trigger] doc.face_patches@[f]) is Some
            ==> doc.face_patches@[f]->0 < doc.patches@.len()
}

/// Where the token starting at `i` ends: the first whitespace position at
/// or after `i`, capped at `to`.
pub open spec fn token_end(data: Seq<u8>, i: int, to: int) -> int
    decreases to - i,
{
    if i >= to || is_space(data[i]) {
        i
    } else {
        token_end(data, i + 1, to)
    }
}

/// A token never ends before it begins.
pub proof fn lemma_token_end_bounds(data: Seq<u8>, i: int, to: int)
    requires
        i <= to,
    ensures
        i <= token_end(data, i, to) <= to,
    decreases to - i,
{
    if !(i >= to || is_space(data[i])) {
        lemma_token_end_bounds(data, i + 1, to);
    }
}

/// The whitespace-separated tokens of `data[i..to]`, in order.
pub open spec fn tokens(data: Seq<u8>, i: int, to: int) -> Seq<Seq<u8>>
    decreases to - i,
    via tokens_decreases
{
    if i >= to {
        Seq::empty()
    } else if is_space(data[i]) {
        tokens(data, i + 1, to)
    } else {
        seq![data.subrange(i, token_end(data, i, to))] + tokens(data, token_end(data, i, to), to)
    }
}

#[via_fn]
proof fn tokens_decreases(data: Seq<u8>, i: int, to: int) {
    if i < to && !is_space(data[i]) {
        lemma_token_end_bounds(data, i + 1, to);
    }
}

impl ObjReader {
    /// The path the reader was constructed from.
    pub closed spec fn spec_path(self) -> Seq<char> {
        self.path@
    }

    /// Construct an ObjReader from its reference path.
    pub fn new(path: &str) -> (r: ObjReader)
        ensures
            r.spec_path() == path@,
    {
        ObjReader { path: path.to_string() }
    }

    /// Get the reference path.
    pub fn path(&self) -> (r: &String)
        ensures
            r@ == self.spec_path(),
    {
        &self.path
    }

    /// Parse the decoded bytes of an OBJ file. Lines are trimmed and
    /// dispatched on their first whitespace-separated token: `v` declares a
    /// vertex of exactly three numeric coordinates, `f` a face of one-based
    /// vertex indices (anything from a `/` on in a token is ignored), `g` a
    /// new patch that the following faces belong to, and every other line is
    /// skipped.
    pub fn parse(&self, data: &[u8]) -> (r: Result<ObjDoc, ParseObjError>)
        ensures
            r matches Ok(doc) ==> doc_wf(doc),
    {
        let mut doc = ObjDoc {
            vertices: Vec::new(),
            face_vertices: Vec::new(),
            face_patches: Vec::new(),
            patches: Vec::new(),
        };
        let n = data.len();
        let mut i: usize = 0;
        while i < n
            invariant
                i <= n,
                n == data@.len(),
                doc_wf(doc),
            decreases n - i,
        {
            // find the end of the line
            let mut j = i;
            while j < n && data[j] != 10
                invariant
                    i <= j <= n,
                    n == data@.len(),
                decreases n - j,
            {
                j += 1;
            }
            // trim the line
            let mut s = i;
            let mut e = j;
            while s < e && byte_is_space(data[s])
                invariant
                    i <= s <= e <= n,
                    n == data@.len(),
                decreases e - s,
            {
                s += 1;
            }
            while e > s && byte_is_space(data[e - 1])
                invariant
                    i <= s <= e <= n,
                    n == data@.len(),
                decreases e,
            {
                e -= 1;
            }
            // split off the command token
            let mut c = s;
            while c < e && !byte_is_space(data[c])
                invariant
                    s <= c <= e <= n,
                    n == data@.len(),
                decreases e - c,
            {
                c += 1;
            }
            // payload starts after the whitespace run following the command
            let mut p = c;
            while p < e && byte_is_space(data[p])
                invariant
                    c <= p <= e <= n,
                    n == data@.len(),
                decreases e - p,
            {
                p += 1;
            }
            if c - s == 1 && data[s] == 118 {
                // 'v'
                match Self::parse_vertex(&mut doc, data, p, e) {
                    Ok(()) => {},
                    Err(err) => {
                        return Err(err);
                    },
                }
            } else if c - s == 1 && data[s] == 102 {
                // 'f'
                match Self::parse_face(&mut doc, data, p, e) {
                    Ok(()) => {},
                    Err(err) => {
                        return Err(err);
                    },
                }
            } else if c - s == 1 && data[s] == 103 {
                // 'g'
                Self::parse_group(&mut doc, data, p, e);
            }
            i = if j < n {
                j + 1
            } else {
                n
            };
        }
        Ok(doc)
    }

    /// Parse a vertex payload: exactly three numeric tokens become a new
    /// vertex; any other shape is an error carrying the raw payload, leaving
    /// the document unchanged.
    fn parse_vertex(doc: &mut ObjDoc, data: &[u8], from: usize, to: usize) -> (r: Result<
        (),
        ParseObjError,
    >)
        requires
            from <= to <= data@.len(),
            doc_wf(*old(doc)),
        ensures
            doc_wf(*final(doc)),
            final(doc).face_vertices@ == old(doc).face_vertices@,
            final(doc).face_patches@ == old(doc).face_patches@,
            final(doc).patches@ == old(doc).patches@,
            r matches Ok(_) ==> {
                &&& tokens(data@, from as int, to as int).len() == 3
                &&& final(doc).vertices@.len() == old(doc).vertices@.len() + 1
                &&& forall|k: int|
                    0 <= k < old(doc).vertices@.len() ==> #[trigger] final(doc).vertices@[k]
                        == old(doc).vertices@[k]
                &&& final(doc).vertices@[old(doc).vertices@.len() as int].x@ == tokens(
                    data@,
                    from as int,
                    to as int,
                )[0]
                &&& final(doc).vertices@[old(doc).vertices@.len() as int].y@ == tokens(
                    data@,
                    from as int,
                    to as int,
                )[1]
                &&& final(doc).vertices@[old(doc).vertices@.len() as int].z@ == tokens(
                    data@,
                    from as int,
                    to as int,
                )[2]
            },
            r matches Err(e) ==> final(doc).vertices@ == old(doc).vertices@ && (e matches
            ParseObjError::InvalidVertex(raw) && raw@ == data@.subrange(from as int, to as int)),
    {
        match scan_vertex(data, from, to) {
            Ok(vertex) => {
                doc.vertices.push(vertex);
                Ok(())
            },
            Err(e) => Err(e),
        }
    }

    /// Parse a face payload: each token's part before any `/` must be a
    /// positive one-based vertex index (a zero or a signed index is an
    /// error; other unreadable tokens are skipped); at least three vertices
    /// are required; the face belongs to the most recently declared patch.
    fn parse_face(doc: &mut ObjDoc, data: &[u8], from: usize, to: usize) -> (r: Result<
        (),
        ParseObjError,
    >)
        requires
            from <= to <= data@.len(),
            doc_wf(*old(doc)),
        ensures
            doc_wf(*final(doc)),
            final(doc).vertices@ == old(doc).vertices@,
            final(doc).patches@ == old(doc).patches@,
            r matches Ok(_) ==> {
                &&& final(doc).face_vertices@.len() == old(doc).face_vertices@.len() + 1
                &&& final(doc).face_patches@.len() == old(doc).face_patches@.len() + 1
                &&& forall|k: int|
                    0 <= k < old(doc).face_vertices@.len() ==> #[trigger] final(doc).face_vertices@[k] == old(doc).face_vertices@[k] && final(doc).face_patches@[
                        k
                    ] == old(doc).face_patches@[k]
                &&& final(doc).face_vertices@[old(doc).face_vertices@.len() as int]@.len() >= 3
                &&& final(doc).face_patches@[old(doc).face_patches@.len() as int] == (if old(doc).patches@.len() > 0 {
                    Some((old(doc).patches@.len() - 1) as usize)
                } else {
                    None
                })
            },
            r matches Err(e) ==> final(doc).face_vertices@ == old(doc).face_vertices@ && final(doc).face_patches@ == old(doc).face_patches@ && (e matches ParseObjError::InvalidFace(raw)
                && raw@ == data@.subrange(from as int, to as int)),
    {
        match scan_face(data, from, to) {
            Ok(vertices) => {
                let np = doc.patches.len();
                let patch = if np != 0 {
                    Some(np - 1)
                } else {
                    None
                };
                doc.face_vertices.push(vertices);
                doc.face_patches.push(patch);
                Ok(())
            },
            Err(e) => Err(e),
        }
    }

    /// Parse a group payload: the trimmed name becomes a new patch that the
    /// faces after it belong to.
    pub fn parse_group(doc: &mut ObjDoc, data: &[u8], from: usize, to: usize)
        requires
            from <= to <= data@.len(),
            doc_wf(*old(doc)),
        ensures
            doc_wf(*final(doc)),
            final(doc).vertices@ == old(doc).vertices@,
            final(doc).face_vertices@ == old(doc).face_vertices@,
            final(doc).face_patches@ == old(doc).face_patches@,
            final(doc).patches@.len() == old(doc).patches@.len() + 1,
            forall|k: int|
                0 <= k < old(doc).patches@.len() ==> #[trigger] final(doc).patches@[k] == old(doc).patches@[k],
            final(doc).patches@[old(doc).patches@.len() as int]@ == data@.subrange(
                from as int,
                to as int,
            ),
    {
        let name = copy_bytes(data, from, to);
        doc.patches.push(name);
    }
}

/// Collect the whitespace-separated tokens of `data[from..to]`.
fn scan_tokens(data: &[u8], from: usize, to: usize) -> (r: Vec<Vec<u8>>)
    requires
        from <= to <= data@.len(),
    ensures
        r@.map_values(|t: Vec<u8>| t@) == tokens(data@, from as int, to as int),
{
    let mut r: Vec<Vec<u8>> = Vec::new();
    let mut p = from;
    while p < to
        invariant
            from <= p <= to <= data@.len(),
            r@.map_values(|t: Vec<u8>| t@) + tokens(data@, p as int, to as int) == tokens(
                data@,
                from as int,
                to as int,
            ),
        decreases to - p,
    {
        if byte_is_space(data[p]) {
            p += 1;
        } else {
            let tok_start = p;
            while p < to && !byte_is_space(data[p])
                invariant
                    from <= tok_start <= p <= to <= data@.len(),
                    token_end(data@, tok_start as int, to as int) == token_end(
                        data@,
                        p as int,
                        to as int,
                    ),
                decreases to - p,
            {
                p += 1;
            }
            proof {
                assert(token_end(data@, p as int, to as int) == p as int);
            }
            let ghost pre_map = r@.map_values(|t: Vec<u8>| t@);
            let tok = copy_bytes(data, tok_start, p);
            let ghost tokview = tok@;
            r.push(tok);
            proof {
                assert(tokens(data@, tok_start as int, to as int) == seq![
                    data@.subrange(tok_start as int, p as int),
                ] + tokens(data@, p as int, to as int));
                assert(r@.map_values(|t: Vec<u8>| t@) =~= pre_map.push(tokview));
                assert(r@.map_values(|t: Vec<u8>| t@) + tokens(data@, p as int, to as int) =~= (
                pre_map + tokens(data@, tok_start as int, to as int)));
            }
        }
    }
    proof {
        assert(tokens(data@, p as int, to as int) =~= Seq::<Seq<u8>>::empty());
        assert(r@.map_values(|t: Vec<u8>| t@) =~= tokens(data@, from as int, to as int));
    }
    r
}

/// Scan a vertex payload: exactly three numeric tokens become the vertex's
/// coordinate tokens; any other shape is rejected with the raw payload.
fn scan_vertex(data: &[u8], from: usize, to: usize) -> (r: Result<ObjVertex, ParseObjError>)
    requires
        from <= to <= data@.len(),
    ensures
        r matches Ok(v) ==> tokens(data@, from as int, to as int).len() == 3 && v.x@ == tokens(
            data@,
            from as int,
            to as int,
        )[0] && v.y@ == tokens(data@, from as int, to as int)[1] && v.z@ == tokens(
            data@,
            from as int,
            to as int,
        )[2],
        r matches Err(e) ==> e matches ParseObjError::InvalidVertex(raw) && raw@ == data@.subrange(
            from as int,
            to as int,
        ),
{
    let toks = scan_tokens(data, from, to);
    if toks.len() != 3 {
        return Err(ParseObjError::InvalidVertex(copy_bytes(data, from, to)));
    }
    let mut k: usize = 0;
    while k < 3
        invariant
            from <= to <= data@.len(),
            toks@.len() == 3,
        decreases 3 - k,
    {
        if !is_number_token(&toks[k]) {
            return Err(ParseObjError::InvalidVertex(copy_bytes(data, from, to)));
        }
        k += 1;
    }
    proof {
        assert(toks@.map_values(|t: Vec<u8>| t@)[0] == toks@[0]@);
        assert(toks@.map_values(|t: Vec<u8>| t@)[1] == toks@[1]@);
        assert(toks@.map_values(|t: Vec<u8>| t@)[2] == toks@[2]@);
    }
    Ok(ObjVertex { x: copy_vec(&toks[0]), y: copy_vec(&toks[1]), z: copy_vec(&toks[2]) })
}

/// Scan a face payload into its zero-based vertex index list.
fn scan_face(data: &[u8], from: usize, to: usize) -> (r: Result<Vec<usize>, ParseObjError>)
    requires
        from <= to <= data@.len(),
    ensures
        r matches Ok(vs) ==> vs@.len() >= 3,
        r matches Err(e) ==> e matches ParseObjError::InvalidFace(raw) && raw@ == data@.subrange(
            from as int,
            to as int,
        ),
{
    let mut vertices: Vec<usize> = Vec::new();
    let mut p = from;
    while p < to
        invariant
            from <= p <= to <= data@.len(),
        decreases to - p,
    {
        if byte_is_space(data[p]) {
            p += 1;
        } else {
            let tok_start = p;
            while p < to && !byte_is_space(data[p])
                invariant
                    tok_start <= p <= to <= data@.len(),
                decreases to - p,
            {
                p += 1;
            }
            let mut cut = tok_start;
            while cut < p && data[cut] != 47
                invariant
                    tok_start <= cut <= p <= data@.len(),
                decreases p - cut,
            {
                cut += 1;
            }
            if cut > tok_start && data[tok_start] == 45 {
                // a signed index is out of range for a one-based list
                let mut all_digits = true;
                let mut q = tok_start + 1;
                while q < cut
                    invariant
                        tok_start < q <= cut <= data@.len(),
                    decreases cut - q,
                {
                    if data[q] < 48 || data[q] > 57 {
                        all_digits = false;
                    }
                    q += 1;
                }
                if all_digits && cut > tok_start + 1 {
                    return Err(ParseObjError::InvalidFace(copy_bytes(data, from, to)));
                }
            } else {
                match parse_index(data, tok_start, cut) {
                    Some(value) => {
                        if value == 0 {
                            return Err(ParseObjError::InvalidFace(copy_bytes(data, from, to)));
                        }
                        vertices.push(value - 1);
                    },
                    None => {},
                }
            }
        }
    }
    if vertices.len() < 3 {
        return Err(ParseObjError::InvalidFace(copy_bytes(data, from, to)));
    }
    Ok(vertices)
}

/// Copy a byte range out of a slice.
fn copy_bytes(data: &[u8], from: usize, to: usize) -> (r: Vec<u8>)
    requires
        from <= to <= data@.len(),
    ensures
        r@ == data@.subrange(from as int, to as int),
{
    let mut r: Vec<u8> = Vec::new();
    let mut i = from;
    while i < to
        invariant
            from <= i <= to <= data@.len(),
            r@ == data@.subrange(from as int, i as int),
        decreases to - i,
    {
        r.push(data[i]);
        i += 1;
        proof {
            assert(r@ =~= data@.subrange(from as int, i as int));
        }
    }
    r
}

/// Copy a byte vector.
fn copy_vec(v: &Vec<u8>) -> (r: Vec<u8>)
    ensures
        r@ == v@,
{
    let mut r: Vec<u8> = Vec::new();
    let mut i: usize = 0;
    while i < v.len()
        invariant
            i <= v@.len(),
            r@ == v@.subrange(0, i as int),
        decreases v@.len() - i,
    {
        r.push(v[i]);
        i += 1;
        proof {
            assert(r@ =~= v@.subrange(0, i as int));
        }
    }
    proof {
        assert(r@ =~= v@);
    }
    r
}

/// The decimal value of an all-digit token, or `None` when the token is
/// empty, holds a non-digit, or overflows the machine word.
fn parse_index(data: &[u8], from: usize, to: usize) -> (r: Option<usize>)
    requires
        from <= to <= data@.len(),
{
    if from == to {
        return None;
    }
    let mut value: usize = 0;
    let mut i = from;
    while i < to
        invariant
            from <= i <= to <= data@.len(),
        decreases to - i,
    {
        let c = data[i];
        if c < 48 || c > 57 {
            return None;
        }
        let d = (c - 48) as usize;
        if value > (usize::MAX - d) / 10 {
            return None;
        }
        value = value * 10 + d;
        i += 1;
    }
    Some(value)
}

/// Whether a token is a number in the accepted grammar: an optional sign,
/// then either a case-insensitive `inf`, `infinity` or `nan`, or a mantissa
/// of digits with at most one dot and at least one digit, optionally
/// followed by an exponent `e`/`E`, an optional sign, and at least one
/// digit.
fn is_number_token(tok: &Vec<u8>) -> (r: bool)
{
    let n = tok.len();
    let mut s: usize = 0;
    if n > 0 && (tok[0] == 43 || tok[0] == 45) {
        s = 1;
    }
    if s == n {
        return false;
    }
    // special words
    if matches_word(tok, s, 105, 110, 102) && n - s == 3 {
        return true;
    }
    if matches_word(tok, s, 110, 97, 110) && n - s == 3 {
        return true;
    }
    if n - s == 8 && matches_word(tok, s, 105, 110, 102) && is_letter(tok[s + 3], 105)
        && is_letter(tok[s + 4], 110) && is_letter(tok[s + 5], 105) && is_letter(tok[s + 6], 116)
        && is_letter(tok[s + 7], 121) {
        return true;
    }
    // mantissa
    let mut i = s;
    let mut digits: usize = 0;
    let mut dots: usize = 0;
    while i < n && tok[i] != 101 && tok[i] != 69
        invariant
            s <= i <= n,
            n == tok@.len(),
            digits <= i,
        decreases n - i,
    {
        let c = tok[i];
        if c >= 48 && c <= 57 {
            if digits < usize::MAX {
                digits += 1;
            }
        } else if c == 46 {
            if dots == 1 {
                return false;
            }
            dots = 1;
        } else {
            return false;
        }
        i += 1;
    }
    if digits == 0 {
        return false;
    }
    if i == n {
        return true;
    }
    // exponent after 'e' or 'E'
    let mut j = i + 1;
    if j < n && (tok[j] == 43 || tok[j] == 45) {
        j += 1;
    }
    if j == n {
        return false;
    }
    while j < n
        invariant
            j <= n,
            n == tok@.len(),
        decreases n - j,
    {
        let c = tok[j];
        if c < 48 || c > 57 {
            return false;
        }
        j += 1;
    }
    true
}

/// Whether the three bytes at `s` spell the given letters, ignoring case.
fn matches_word(tok: &Vec<u8>, s: usize, a: u8, b: u8, c: u8) -> (r: bool)
    requires
        a >= 97,
        b >= 97,
        c >= 97,
{
    if tok.len() < 3 || s > tok.len() - 3 {
        return false;
    }
    is_letter(tok[s], a) && is_letter(tok[s + 1], b) && is_letter(tok[s + 2], c)
}

/// Whether a byte is the given lowercase letter, ignoring case.
fn is_letter(c: u8, lower: u8) -> (r: bool)
    requires
        lower >= 97,
{
    c == lower || (c >= 65 && c <= 90 && c + 32 == lower)
}
} // verus!
