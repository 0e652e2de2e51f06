//! Stop words: keywords whose neighbours the search does not explore. A stop word of the
//! form `[...]` names a preset list and stands for its members.

use vstd::prelude::*;

use crate::text::same_text;

verus! {

broadcast use {vstd::seq_lib::group_to_multiset_ensures, vstd::multiset::group_multiset_axioms};

/// The text of each string.
pub open spec fn names_of(v: Seq<String>) -> Seq<Seq<char>> {
    v.map_values(|s: String| s@)
}

/// The `[나라]` preset: countries.
pub open spec fn nations() -> Seq<Seq<char>> {
    seq![
        "대한민국"@,
        "미국"@,
        "영국"@,
        "프랑스"@,
        "독일"@,
        "이탈리아"@,
        "중국"@,
        "러시아"@,
        "일본"@,
        "북한"@,
        "소련"@,
    ]
}

fn nations_list() -> (r: Vec<String>)
    ensures
        names_of(r@) == nations(),
{
    let mut v: Vec<String> = Vec::new();
    v.push("대한민국".to_owned());
    v.push("미국".to_owned());
    v.push("영국".to_owned());
    v.push("프랑스".to_owned());
    v.push("독일".to_owned());
    v.push("이탈리아".to_owned());
    v.push("중국".to_owned());
    v.push("러시아".to_owned());
    v.push("일본".to_owned());
    v.push("북한".to_owned());
    v.push("소련".to_owned());
    assert(names_of(v@) =~= nations());
    v
}

/// The `[대한민국 대통령]` preset: presidents of South Korea.
pub open spec fn presidents() -> Seq<Seq<char>> {
    seq![
        "이승만"@,
        "윤보선"@,
        "박정희"@,
        "최규하"@,
        "전두환"@,
        "노태우"@,
        "김영삼"@,
        "김대중"@,
        "노무현"@,
        "이명박"@,
        "박근혜"@,
        "문재인"@,
        "윤석열"@,
    ]
}

fn presidents_list() -> (r: Vec<String>)
    ensures
        names_of(r@) == presidents(),
{
    let mut v: Vec<String> = Vec::new();
    v.push("이승만".to_owned());
    v.push("윤보선".to_owned());
    v.push("박정희".to_owned());
    v.push("최규하".to_owned());
    v.push("전두환".to_owned());
    v.push("노태우".to_owned());
    v.push("김영삼".to_owned());
    v.push("김대중".to_owned());
    v.push("노무현".to_owned());
    v.push("이명박".to_owned());
    v.push("박근혜".to_owned());
    v.push("문재인".to_owned());
    v.push("윤석열".to_owned());
    assert(names_of(v@) =~= presidents());
    v
}

/// The `[해외 정치인]` preset: politicians abroad.
pub open spec fn foreign_politicians() -> Seq<Seq<char>> {
    seq![
        "조 바이든"@,
        "도널드 트럼프"@,
        "버락 오바마"@,
        "기시다 후미오"@,
        "스가 요시히데"@,
        "아베 신조"@,
        "올라프 숄츠"@,
        "앙겔라 메르켈"@,
        "리즈 트러스"@,
        "보리스 존슨"@,
        "테레사 메이"@,
        "에마뉘엘 마크롱"@,
        "프랑수아 올랑드"@,
        "볼로디미르 젤렌스키"@,
        "블라디미르 푸틴"@,
        "시진핑"@,
        "후진타오"@,
        "김일성"@,
        "김정일"@,
        "김정은"@,
    ]
}

fn foreign_politicians_list() -> (r: Vec<String>)
    ensures
        names_of(r@) == foreign_politicians(),
{
    let mut v: Vec<String> = Vec::new();
    v.push("조 바이든".to_owned());
    v.push("도널드 트럼프".to_owned());
    v.push("버락 오바마".to_owned());
    v.push("기시다 후미오".to_owned());
    v.push("스가 요시히데".to_owned());
    v.push("아베 신조".to_owned());
    v.push("올라프 숄츠".to_owned());
    v.push("앙겔라 메르켈".to_owned());
    v.push("리즈 트러스".to_owned());
    v.push("보리스 존슨".to_owned());
    v.push("테레사 메이".to_owned());
    v.push("에마뉘엘 마크롱".to_owned());
    v.push("프랑수아 올랑드".to_owned());
    v.push("볼로디미르 젤렌스키".to_owned());
    v.push("블라디미르 푸틴".to_owned());
    v.push("시진핑".to_owned());
    v.push("후진타오".to_owned());
    v.push("김일성".to_owned());
    v.push("김정일".to_owned());
    v.push("김정은".to_owned());
    assert(names_of(v@) =~= foreign_politicians());
    v
}

/// The position of the first `w` in `words` (its length when there is none).
pub open spec fn first_position(words: Seq<Seq<char>>, w: Seq<char>) -> int
    decreases words.len(),
{
    if words.len() == 0 {
        0
    } else if words[0] == w {
        0
    } else {
        1 + first_position(words.drop_first(), w)
    }
}

proof fn lemma_first_position(words: Seq<Seq<char>>, w: Seq<char>)
    ensures
        0 <= first_position(words, w) <= words.len(),
        words.contains(w) <==> first_position(words, w) < words.len(),
        first_position(words, w) < words.len() ==> words[first_position(words, w)] == w,
        forall|j: int| 0 <= j < first_position(words, w) ==> words[j] != w,
    decreases words.len(),
{
    if words.len() > 0 && words[0] != w {
        lemma_first_position(words.drop_first(), w);
        if words.contains(w) {
            let j = choose|j: int| 0 <= j < words.len() && words[j] == w;
            assert(words.drop_first()[j - 1] == w);
        }
        if words.drop_first().contains(w) {
            let j = choose|j: int| 0 <= j < words.len() - 1 && words.drop_first()[j] == w;
            assert(words[j + 1] == w);
        }
        assert forall|j: int| 0 <= j < first_position(words, w) implies words[j] != w by {
            if j > 0 {
                assert(words[j] == words.drop_first()[j - 1]);
            }
        }
    }
}

/// A preset named `key` among `words` is replaced by its members: the first `key` is removed
/// and the members are added at the end.
pub open spec fn expand_preset(words: Seq<Seq<char>>, key: Seq<char>, members: Seq<Seq<char>>) -> Seq<
    Seq<char>,
> {
    if words.contains(key) {
        words.remove(first_position(words, key)) + members
    } else {
        words
    }
}

/// All three presets expanded, in turn.
pub open spec fn expanded_stopwords(words: Seq<Seq<char>>) -> Seq<Seq<char>> {
    expand_preset(
        expand_preset(expand_preset(words, "[나라]"@, nations()), "[대한민국 대통령]"@, presidents()),
        "[해외 정치인]"@,
        foreign_politicians(),
    )
}

/// The presets' members, in order: eleven countries for `[나라]`, the thirteen presidents of
/// South Korea for `[대한민국 대통령]`, and twenty foreign politicians for `[해외 정치인]`.
pub proof fn lemma_preset_members()
    ensures
        nations().len() == 11,
        presidents().len() == 13,
        foreign_politicians().len() == 20,
        nations() == seq![
            "대한민국"@,
            "미국"@,
            "영국"@,
            "프랑스"@,
            "독일"@,
            "이탈리아"@,
            "중국"@,
            "러시아"@,
            "일본"@,
            "북한"@,
            "소련"@,
        ],
        presidents() == seq![
            "이승만"@,
            "윤보선"@,
            "박정희"@,
            "최규하"@,
            "전두환"@,
            "노태우"@,
            "김영삼"@,
            "김대중"@,
            "노무현"@,
            "이명박"@,
            "박근혜"@,
            "문재인"@,
            "윤석열"@,
        ],
        foreign_politicians() == seq![
            "조 바이든"@,
            "도널드 트럼프"@,
            "버락 오바마"@,
            "기시다 후미오"@,
            "스가 요시히데"@,
            "아베 신조"@,
            "올라프 숄츠"@,
            "앙겔라 메르켈"@,
            "리즈 트러스"@,
            "보리스 존슨"@,
            "테레사 메이"@,
            "에마뉘엘 마크롱"@,
            "프랑수아 올랑드"@,
            "볼로디미르 젤렌스키"@,
            "블라디미르 푸틴"@,
            "시진핑"@,
            "후진타오"@,
            "김일성"@,
            "김정일"@,
            "김정은"@,
        ],
{
}

/// No member of a list starts with `[`, so none is a preset name.
pub open spec fn unbracketed(list: Seq<Seq<char>>) -> bool {
    forall|i: int| 0 <= i < list.len() ==> #[trigger] list[i].len() > 0 && list[i][0] != '['
}

proof fn lemma_nations_unbracketed()
    ensures
        unbracketed(nations()),
{
    reveal_strlit("대한민국");
    reveal_strlit("미국");
    reveal_strlit("영국");
    reveal_strlit("프랑스");
    reveal_strlit("독일");
    reveal_strlit("이탈리아");
    reveal_strlit("중국");
    reveal_strlit("러시아");
    reveal_strlit("일본");
    reveal_strlit("북한");
    reveal_strlit("소련");
}

proof fn lemma_presidents_unbracketed()
    ensures
        unbracketed(presidents()),
{
    reveal_strlit("이승만");
    reveal_strlit("윤보선");
    reveal_strlit("박정희");
    reveal_strlit("최규하");
    reveal_strlit("전두환");
    reveal_strlit("노태우");
    reveal_strlit("김영삼");
    reveal_strlit("김대중");
    reveal_strlit("노무현");
    reveal_strlit("이명박");
    reveal_strlit("박근혜");
    reveal_strlit("문재인");
    reveal_strlit("윤석열");
}

proof fn lemma_foreign_unbracketed()
    ensures
        unbracketed(foreign_politicians()),
{
    reveal_strlit("조 바이든");
    reveal_strlit("도널드 트럼프");
    reveal_strlit("버락 오바마");
    reveal_strlit("기시다 후미오");
    reveal_strlit("스가 요시히데");
    reveal_strlit("아베 신조");
    reveal_strlit("올라프 숄츠");
    reveal_strlit("앙겔라 메르켈");
    reveal_strlit("리즈 트러스");
    reveal_strlit("보리스 존슨");
    reveal_strlit("테레사 메이");
    reveal_strlit("에마뉘엘 마크롱");
    reveal_strlit("프랑수아 올랑드");
    reveal_strlit("볼로디미르 젤렌스키");
    reveal_strlit("블라디미르 푸틴");
    reveal_strlit("시진핑");
    reveal_strlit("후진타오");
    reveal_strlit("김일성");
    reveal_strlit("김정일");
    reveal_strlit("김정은");
}

proof fn lemma_no_key_in(list: Seq<Seq<char>>, key: Seq<char>)
    requires
        unbracketed(list),
        key.len() > 0,
        key[0] == '[',
    ensures
        !list.contains(key),
        list.to_multiset().count(key) == 0,
{
    if list.contains(key) {
        let i = choose|i: int| 0 <= i < list.len() && list[i] == key;
        assert(list[i][0] != '[');
    }
}

/// Expanding one preset, counted: the first occurrence of the preset name goes and every
/// member comes in; without the name, nothing changes.
proof fn lemma_expand_preset_counts(words: Seq<Seq<char>>, key: Seq<char>, members: Seq<Seq<char>>)
    ensures
        expand_preset(words, key, members).to_multiset() == if words.contains(key) {
            words.to_multiset().remove(key).add(members.to_multiset())
        } else {
            words.to_multiset()
        },
{
    if words.contains(key) {
        lemma_first_position(words, key);
        let p = first_position(words, key);
        vstd::seq_lib::lemma_multiset_commutative(words.remove(p), members);
        assert(words.remove(p).to_multiset() == words.to_multiset().remove(words[p]));
    }
}

/// Each preset named among the stop words is expanded, whatever other presets are named:
/// counting every word, the result has one occurrence fewer of each preset name that occurs,
/// and all the members of each such preset, and otherwise exactly the words given. In
/// particular every member of every named preset is a stop word.
pub proof fn lemma_presets_expand_independently(words: Seq<Seq<char>>)
    ensures
        forall|x: Seq<char>|
            #[trigger] expanded_stopwords(words).to_multiset().count(x) == words.to_multiset().count(x)
                - (if (x == "[나라]"@ || x == "[대한민국 대통령]"@ || x == "[해외 정치인]"@)
                && words.contains(x) {
                1int
            } else {
                0int
            }) + (if words.contains("[나라]"@) {
                nations().to_multiset().count(x) as int
            } else {
                0int
            }) + (if words.contains("[대한민국 대통령]"@) {
                presidents().to_multiset().count(x) as int
            } else {
                0int
            }) + (if words.contains("[해외 정치인]"@) {
                foreign_politicians().to_multiset().count(x) as int
            } else {
                0int
            }),
        words.contains("[나라]"@) ==> forall|i: int|
            0 <= i < nations().len() ==> expanded_stopwords(words).contains(#[trigger] nations()[i]),
        words.contains("[대한민국 대통령]"@) ==> forall|i: int|
            0 <= i < presidents().len() ==> expanded_stopwords(words).contains(
                #[trigger] presidents()[i],
            ),
        words.contains("[해외 정치인]"@) ==> forall|i: int|
            0 <= i < foreign_politicians().len() ==> expanded_stopwords(words).contains(
                #[trigger] foreign_politicians()[i],
            ),
{
    let k1 = "[나라]"@;
    let k2 = "[대한민국 대통령]"@;
    let k3 = "[해외 정치인]"@;
    reveal_strlit("[나라]");
    reveal_strlit("[대한민국 대통령]");
    reveal_strlit("[해외 정치인]");
    assert(k1[0] == '[' && k2[0] == '[' && k3[0] == '[');
    assert(k1 != k2 && k1 != k3 && k2 != k3) by {
        assert(k1.len() != k2.len());
        assert(k1.len() != k3.len());
        assert(k2.len() != k3.len());
    }
    let n = nations();
    let p = presidents();
    let f = foreign_politicians();
    lemma_nations_unbracketed();
    lemma_presidents_unbracketed();
    lemma_foreign_unbracketed();
    lemma_no_key_in(n, k1);
    lemma_no_key_in(n, k2);
    lemma_no_key_in(n, k3);
    lemma_no_key_in(p, k1);
    lemma_no_key_in(p, k2);
    lemma_no_key_in(p, k3);
    lemma_no_key_in(f, k1);
    lemma_no_key_in(f, k2);
    lemma_no_key_in(f, k3);
    let w1 = expand_preset(words, k1, n);
    let w2 = expand_preset(w1, k2, p);
    let w3 = expand_preset(w2, k3, f);
    assert(w3 == expanded_stopwords(words));
    lemma_expand_preset_counts(words, k1, n);
    lemma_expand_preset_counts(w1, k2, p);
    lemma_expand_preset_counts(w2, k3, f);
    assert(w1.contains(k2) == words.contains(k2)) by {
        assert(w1.to_multiset().count(k2) == words.to_multiset().count(k2));
    }
    assert(w1.contains(k3) == words.contains(k3)) by {
        assert(w1.to_multiset().count(k3) == words.to_multiset().count(k3));
    }
    assert(w2.contains(k3) == words.contains(k3)) by {
        assert(w2.to_multiset().count(k3) == w1.to_multiset().count(k3));
    }
    assert forall|x: Seq<char>| #[trigger] w3.to_multiset().count(x) == words.to_multiset().count(x)
        - (if (x == k1 || x == k2 || x == k3) && words.contains(x) {
        1int
    } else {
        0int
    }) + (if words.contains(k1) {
        n.to_multiset().count(x) as int
    } else {
        0int
    }) + (if words.contains(k2) {
        p.to_multiset().count(x) as int
    } else {
        0int
    }) + (if words.contains(k3) {
        f.to_multiset().count(x) as int
    } else {
        0int
    }) by {
        if words.contains(x) {
            assert(words.to_multiset().count(x) > 0);
        }
        if w1.contains(x) {
            assert(w1.to_multiset().count(x) > 0);
        }
        if w2.contains(x) {
            assert(w2.to_multiset().count(x) > 0);
        }
    }
    assert forall|i: int| 0 <= i < n.len() && words.contains(k1) implies w3.contains(
        #[trigger] n[i],
    ) by {
        assert(n.contains(n[i]));
        assert(n.to_multiset().count(n[i]) > 0);
        assert(w3.to_multiset().count(n[i]) > 0);
    }
    assert forall|i: int| 0 <= i < p.len() && words.contains(k2) implies w3.contains(
        #[trigger] p[i],
    ) by {
        assert(p.contains(p[i]));
        assert(p.to_multiset().count(p[i]) > 0);
        assert(w3.to_multiset().count(p[i]) > 0);
    }
    assert forall|i: int| 0 <= i < f.len() && words.contains(k3) implies w3.contains(
        #[trigger] f[i],
    ) by {
        assert(f.contains(f[i]));
        assert(f.to_multiset().count(f[i]) > 0);
        assert(w3.to_multiset().count(f[i]) > 0);
    }
}

fn expand_one(words: &mut Vec<String>, key: &str, members: Vec<String>)
    ensures
        names_of(final(words)@) == expand_preset(names_of(old(words)@), key@, names_of(members@)),
{
    let ghost names = names_of(words@);
    proof {
        lemma_first_position(names, key@);
    }
    let n = words.len();
    let mut i: usize = 0;
    while i < n
        invariant
            n == words@.len(),
            words@ == old(words)@,
            names == names_of(words@),
            i <= n,
            forall|j: int| 0 <= j < i ==> names[j] != key@,
            0 <= first_position(names, key@) <= names.len(),
            names.contains(key@) <==> first_position(names, key@) < names.len(),
            first_position(names, key@) < names.len() ==> names[first_position(names, key@)] == key@,
            forall|j: int| 0 <= j < first_position(names, key@) ==> names[j] != key@,
        decreases n - i,
    {
        if same_text(words[i].as_str(), key) {
            assert(names[i as int] == key@);
            assert(first_position(names, key@) == i);
            words.remove(i);
            let mut extra = members;
            words.append(&mut extra);
            assert(names_of(words@) =~= names.remove(i as int) + names_of(members@));
            return;
        }
        i = i + 1;
    }
    assert(!names.contains(key@));
}

/// The stop words with each preset name replaced by its members.
pub fn expand_stopwords(stopword: Vec<String>) -> (r: Vec<String>)
    ensures
        names_of(r@) == expanded_stopwords(names_of(stopword@)),
{
    let mut words = stopword;
    expand_one(&mut words, "[나라]", nations_list());
    expand_one(&mut words, "[대한민국 대통령]", presidents_list());
    expand_one(&mut words, "[해외 정치인]", foreign_politicians_list());
    words
}

} // verus!
