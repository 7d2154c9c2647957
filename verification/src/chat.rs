//! The chat listener's decision core: given one inbound message, decide which
//! actions the transport should take. Sending, summarizing and every other
//! piece of transport work stays with the caller; this module only decides
//! and, for the edit command, mints the token that the decision carries.

use vstd::prelude::*;

use crate::matcher::respond;
use crate::rules::RuleStore;
use crate::text::{contains_str, is_prefix, is_substr, starts_with_str};
use crate::tokens::{lookup, TokenModel, TokenStore};

verus! {

/// What the transport should do about one inbound message.
pub struct MessagePlan {
    /// A rule-editing link carrying a fresh token, owed exactly when the
    /// message starts with the edit command.
    pub edit_link: Option<String>,
    /// The message asked for a summary of the recent conversation.
    pub wants_summary: bool,
    /// The matcher's answer, to be sent back to the channel, if any.
    pub reply: Option<String>,
}

/// Decide what to do about `content`, sent by `author_id` at time `now`:
/// an edit command mints a token bound to the author and wraps it in the
/// editing link; a summary request is flagged; and the rule matcher proposes
/// a reply.
pub fn plan_message(
    rules: &RuleStore,
    tokens: &mut TokenStore,
    content: &str,
    author_id: u64,
    now: u64,
) -> (p: MessagePlan)
    requires
        rules.wf(),
        old(tokens).wf(),
    ensures
        final(tokens).wf(),
        p.edit_link is Some <==> is_prefix(content@, "!edit"@),
        !is_prefix(content@, "!edit"@) ==> final(tokens)@ == old(tokens)@,
        p.edit_link matches Some(l) ==> exists|tok: Seq<char>|
            l@ == "http://localhost:3000/?token="@ + tok && #[trigger] lookup(final(tokens)@, tok)
                == Some(TokenModel { value: tok, principal: author_id, issued_at: now }) && (
            forall|v: Seq<char>|
                v != tok ==> #[trigger] lookup(final(tokens)@, v) == lookup(old(tokens)@, v)),
        p.wants_summary == is_substr(content@, "bot, what are they talking about"@),
        p.reply matches Some(x) ==> exists|i: int|
            0 <= i < rules@.len() && is_substr(content@, (#[trigger] rules@[i]).trigger)
                && rules@[i].responses.contains(x@),
        p.reply is None <==> forall|i: int|
            0 <= i < rules@.len() ==> !is_substr(content@, (#[trigger] rules@[i]).trigger),
{
    let edit_link: Option<String> = if starts_with_str(content, "!edit") {
        let tok = tokens.generate_token(author_id, now);
        let link = String::from_str("http://localhost:3000/?token=").concat(tok.as_str());
        assert(link@ == "http://localhost:3000/?token="@ + tok@);
        Some(link)
    } else {
        None
    };
    let wants_summary = contains_str(content, "bot, what are they talking about");
    let reply = respond(rules, content);
    MessagePlan { edit_link, wants_summary, reply }
}

/// One chat message as the transcript builder sees it.
pub struct ChatLine {
    pub author: String,
    pub content: String,
}

/// One transcript line: `author: content` and a line break.
pub open spec fn line_text(author: Seq<char>, content: Seq<char>) -> Seq<char> {
    author + ": "@ + content + "\n"@
}

/// The transcript of `lines` read from the last element to the first: chat
/// transports hand history newest-first, and the transcript runs oldest-first.
pub open spec fn transcript_model(lines: Seq<ChatLine>) -> Seq<char>
    decreases lines.len(),
{
    if lines.len() == 0 {
        Seq::empty()
    } else {
        line_text(lines.last().author@, lines.last().content@) + transcript_model(
            lines.drop_last(),
        )
    }
}

/// Peeling the transcript from the other end: the first element's line comes
/// last.
proof fn lemma_transcript_extend(s: Seq<ChatLine>)
    requires
        s.len() > 0,
    ensures
        transcript_model(s) == transcript_model(s.subrange(1, s.len() as int)) + line_text(
            s[0].author@,
            s[0].content@,
        ),
    decreases s.len(),
{
    let rest = s.subrange(1, s.len() as int);
    if s.len() == 1 {
        assert(rest =~= Seq::<ChatLine>::empty());
        assert(transcript_model(rest) =~= Seq::<char>::empty());
        assert(s.last() == s[0]);
        assert(transcript_model(s.drop_last()) =~= Seq::<char>::empty());
        assert(transcript_model(s) =~= line_text(s[0].author@, s[0].content@) + Seq::empty());
        assert(transcript_model(s) =~= transcript_model(rest) + line_text(
            s[0].author@,
            s[0].content@,
        ));
    } else {
        lemma_transcript_extend(s.drop_last());
        assert(s.drop_last().subrange(1, s.drop_last().len() as int) =~= rest.drop_last());
        assert(s.drop_last()[0] == s[0]);
        assert(rest.last() == s.last());
        assert(transcript_model(s) =~= transcript_model(rest) + line_text(
            s[0].author@,
            s[0].content@,
        ));
    }
}

/// The chat history, newest message first, rendered as one transcript text,
/// oldest message first, one `author: content` line per message.
#[verifier::loop_isolation(false)]
pub fn reverse_messages(messages: &Vec<ChatLine>) -> (r: String)
    ensures
        r@ == transcript_model(messages@),
{
    let mut out = String::new();
    let n = messages.len();
    let mut i: usize = 0;
    assert(messages@.subrange(n as int, n as int) =~= Seq::<ChatLine>::empty());
    while i < n
        invariant
            i <= n,
            out@ == transcript_model(messages@.subrange((n - i) as int, n as int)),
        decreases n - i,
    {
        let line = &messages[n - 1 - i];
        out.append(line.author.as_str());
        out.append(": ");
        out.append(line.content.as_str());
        out.append("\n");
        proof {
            let s = messages@.subrange((n - i - 1) as int, n as int);
            lemma_transcript_extend(s);
            assert(s.subrange(1, s.len() as int) =~= messages@.subrange(
                (n - i) as int,
                n as int,
            ));
            assert(s[0] == messages@[(n - i - 1) as int]);
            assert(out@ =~= transcript_model(s));
        }
        i += 1;
    }
    assert(messages@.subrange(0, n as int) =~= messages@);
    out
}

} // verus!
