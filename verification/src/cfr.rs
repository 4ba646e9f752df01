use vstd::prelude::*;

verus! {

/// An information set of a game in compact form: the original one, the
/// player to choose there, its actions, and the choices (information set,
/// action) that the player made before reaching it.
pub struct CompactInfoset<OrigAction, OrigInfoset> {
    pub orig: OrigInfoset,
    pub player: usize,
    pub actions: Vec<OrigAction>,
    observable_history: Vec<(usize, usize)>,
}

impl<OrigAction, OrigInfoset> View for CompactInfoset<OrigAction, OrigInfoset> {
    /// The original information set, the player, the actions and the
    /// player's earlier choices.
    type V = (OrigInfoset, usize, Seq<OrigAction>, Seq<(usize, usize)>);

    closed spec fn view(&self) -> Self::V {
        (self.orig, self.player, self.actions@, self.observable_history@)
    }
}

impl<OrigAction, OrigInfoset> CompactInfoset<OrigAction, OrigInfoset> {
    /// The information set `orig` of `player`, with its `actions`, first
    /// reached after the player's own choices `observable_history`.
    pub fn new(
        orig: OrigInfoset,
        player: usize,
        actions: Vec<OrigAction>,
        observable_history: Vec<(usize, usize)>,
    ) -> (ci: Self)
        ensures
            ci@ == (orig, player, actions@, observable_history@),
    {
        CompactInfoset { orig, player, actions, observable_history }
    }

    /// The choices (information set, action) the player made before
    /// reaching this information set.
    pub fn observable_history(&self) -> (h: &Vec<(usize, usize)>)
        ensures
            h@ == self@.3,
    {
        &self.observable_history
    }

    /// Whether a path that reaches this information set after the player's
    /// own choices `history` agrees with the one that first reached it, as
    /// perfect recall demands.
    pub fn recalls(&self, history: &Vec<(usize, usize)>) -> (b: bool)
        ensures
            b <==> self@.3 == history@,
    {
        let n = self.observable_history.len();
        if n != history.len() {
            return false;
        }
        let mut i: usize = 0;
        while i < n
            invariant
                n == self.observable_history@.len(),
                n == history@.len(),
                i <= n,
                forall|j: int| 0 <= j < i ==> self.observable_history@[j] == history@[j],
            decreases n - i,
        {
            let a = self.observable_history[i];
            let b = history[i];
            if a.0 != b.0 || a.1 != b.1 {
                return false;
            }
            i = i + 1;
        }
        proof {
            assert(self.observable_history@ =~= history@);
        }
        true
    }
}

} // verus!
